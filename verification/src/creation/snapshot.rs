//! Capturing a construction as a document.

use vstd::prelude::*;

use super::doc::{
    BearingDoc, BearingSocketDoc, ConstructionFrameDoc, CreationDocument, DriveLinkDoc,
    EdgeChainRefDoc, FaceOwnerDoc, FaceRefDoc, GearboxConfigDoc, InputSeatLinkDoc, PartDoc,
    RegionDoc, RigidLinkDoc, SeatControllerLinkDoc, ShapeFeatureDoc, SolidOwnerDoc,
    TopologyKeyDoc, TopologySourceDoc, WeldDoc, CREATION_FORMAT_VERSION,
};
use super::rows::{
    chain_doc_of, chain_listed, describes_part, describes_program, face_doc_of, face_listed,
    key_doc_of, key_listed, layerable, limits_doc, limits_doc_of, part_doc, program_doc, row_of,
    rows_name_by_position,
};
use crate::frame::{ConstructionFrame, ConstructionFrameId};
use crate::framing::{moved_bearing, BearingMotion};
use crate::gearbox::GearboxConfig;
use crate::graph::{ConstructionGraph, GearLane};
use crate::ids::{BearingId, PartId, RegionId, ShapeFeatureId, WeldId};
use crate::parts::{
    BearingSocket, BearingSpec, DriveLinkSpec, EdgeChainRef, FaceOwner, FaceRef,
    InputSeatLinkSpec, PartSpec, RigidLinkSpec, SeatControllerLinkSpec, ShapeFeature, SolidOwner,
    TopologyKey, TopologySource, WeldSpec,
};
use crate::region::ShapeRegion;
use crate::scalar::Scalar;

verus! {

/// Grids, joints and sockets in build space, in row order. They are read only
/// while the construction is seen from another space.
#[derive(Debug)]
pub struct CanonicalSpace {
    pub frames: Vec<ConstructionFrame>,
    pub bearings: Vec<BearingMotion>,
    pub sockets: Vec<BearingMotion>,
}

/// The row of a weld.
pub open spec fn weld_doc_of(
    weld: WeldSpec,
    parts: Seq<PartId>,
    features: Seq<ShapeFeatureId>,
) -> WeldDoc {
    WeldDoc {
        first: face_doc_of(weld.first, parts, features),
        second: face_doc_of(weld.second, parts, features),
    }
}

/// The row of a joint.
pub open spec fn bearing_doc_of(
    bearing: BearingSpec,
    parts: Seq<PartId>,
    features: Seq<ShapeFeatureId>,
) -> BearingDoc {
    BearingDoc {
        kind: bearing.kind,
        source: face_doc_of(bearing.source, parts, features),
        target: match bearing.target {
            Some(face) => Some(face_doc_of(face, parts, features)),
            None => None,
        },
        anchor: bearing.shared_anchor,
        axis: bearing.axis,
        outer_diameter: bearing.outer_diameter,
        inner_diameter: bearing.inner_diameter,
    }
}

/// The row of a socket.
pub open spec fn socket_doc_of(
    socket: BearingSocket,
    parts: Seq<PartId>,
    features: Seq<ShapeFeatureId>,
) -> BearingSocketDoc {
    BearingSocketDoc {
        kind: socket.kind,
        axis: socket.axis,
        source: face_doc_of(socket.source, parts, features),
        anchor: socket.anchor,
        outer_diameter: socket.outer_diameter,
        inner_diameter: socket.inner_diameter,
    }
}

/// A socket after a motion.
pub open spec fn moved_socket(socket: BearingSocket, motion: BearingMotion) -> BearingSocket {
    BearingSocket { anchor: motion.anchor, axis: motion.axis, kind: motion.kind, ..socket }
}

/// Whether a row describes a region.
pub open spec fn describes_region(region: ShapeRegion, doc: RegionDoc) -> bool {
    &&& doc.origin_steps@ == seq![
        region.origin_steps.x,
        region.origin_steps.y,
        region.origin_steps.z,
    ]
    &&& doc.size_cells@ == seq![region.size_cells.x, region.size_cells.y, region.size_cells.z]
    &&& doc.material == region.material
    &&& doc.appearance == region.appearance
    &&& doc.divisions_x@ == region.divisions_x@
    &&& doc.divisions_y@ == region.divisions_y@
    &&& doc.divisions_z@ == region.divisions_z@
    &&& doc.vertices@ == region.vertices@
}

/// Whether a row describes an edge feature.
pub open spec fn describes_feature(
    feature: ShapeFeature,
    parts: Seq<PartId>,
    regions: Seq<RegionId>,
    features: Seq<ShapeFeatureId>,
    doc: ShapeFeatureDoc,
) -> bool {
    &&& doc.targets@ == feature.targets@.map_values(
        |chain: EdgeChainRef| chain_doc_of(chain, parts, regions, features),
    )
    &&& doc.treatment == feature.treatment
    &&& doc.amount_ticks == feature.amount_ticks
}

/// Whether a row describes a wire.
pub open spec fn describes_link(
    link: DriveLinkSpec,
    parts: Seq<PartId>,
    bearings: Seq<BearingId>,
    doc: DriveLinkDoc,
) -> bool {
    &&& doc.linear_limits == link.linear_limits
    &&& doc.controller == row_of(parts, link.controller)
    &&& doc.bearing == row_of(bearings, link.bearing)
    &&& doc.reversed == link.reversed
    &&& doc.actuator == link.actuator
    &&& doc.limits == limits_doc_of(link.limits)
    &&& describes_program(link.program, doc.program)
    &&& doc.name@ == link.name@
}

/// Whether a row describes a gear lane.
pub open spec fn describes_lane(
    lane: GearLane,
    config: GearboxConfig,
    parts: Seq<PartId>,
    doc: GearboxConfigDoc,
) -> bool {
    &&& doc.controller == row_of(parts, lane.controller)
    &&& doc.kind == lane.kind
    &&& doc.mode == config.mode
    &&& doc.ratios@ == config.ratios@
    &&& doc.reverse_gears == config.reverse_gears
    &&& doc.gear_up == config.gear_up
    &&& doc.gear_down == config.gear_down
}

impl ConstructionGraph {
    /// Whether the construction is seen from build space.
    pub open spec fn canonical(&self) -> bool {
        self.frames.view_to_build.same_value(ConstructionFrame::identity())
    }

    /// The grid in row `i`, in build space.
    pub open spec fn canonical_frame(&self, space: CanonicalSpace, i: int) -> ConstructionFrame {
        if self.canonical() {
            self.frames.frames.values@[i]
        } else if self.frames.frames.keys@[i] == ConstructionFrameId(0) {
            ConstructionFrame::identity()
        } else {
            space.frames@[i]
        }
    }

    /// The joint in row `i`, in build space.
    pub open spec fn canonical_bearing(&self, space: CanonicalSpace, i: int) -> BearingSpec {
        if self.canonical() {
            self.bearings.rows.values@[i]
        } else {
            moved_bearing(self.bearings.rows.values@[i], space.bearings@[i])
        }
    }

    /// Whether a weld holds a transmission to what it extends.
    pub open spec fn holds_transmission(&self, weld: WeldId) -> bool {
        exists|k: int|
            0 <= k < self.transmission_welds.values@.len()
                && #[trigger] self.transmission_welds.values@[k] == weld
    }

    /// Rows of the first `count` welds that hold no transmission.
    pub open spec fn plain_welds(&self, count: int) -> Seq<WeldDoc>
        decreases count,
    {
        if count <= 0 {
            Seq::empty()
        } else if self.holds_transmission(self.welds.rows.keys@[count - 1]) {
            self.plain_welds(count - 1)
        } else {
            self.plain_welds(count - 1).push(
                weld_doc_of(
                    self.welds.rows.values@[count - 1],
                    self.parts.rows.keys@,
                    self.shape_features.rows.keys@,
                ),
            )
        }
    }

    /// The row that a part's upstream part stands in.
    pub open spec fn parent_row(&self, part: PartId) -> Option<u32> {
        if self.transmission_parents@.dom().contains(part) {
            Some(row_of(self.parts.rows.keys@, self.transmission_parents@[part]))
        } else {
            None
        }
    }

    /// Whether every row count is an index.
    pub open spec fn rows_countable(&self) -> bool {
        &&& self.parts.rows.keys@.len() <= u32::MAX
        &&& self.bearings.rows.keys@.len() <= u32::MAX
        &&& self.regions.rows.keys@.len() <= u32::MAX
        &&& self.shape_features.rows.keys@.len() <= u32::MAX
        &&& self.frames.frames.keys@.len() <= u32::MAX
    }

    /// Whether a face names live rows.
    pub open spec fn face_live(&self, face: FaceRef) -> bool {
        face_listed(face, self.parts.rows.keys@, self.shape_features.rows.keys@)
    }

    /// Whether parts can be saved: transmissions extend live parts, and only
    /// cuboids and cylinders are layered.
    pub open spec fn parts_saveable(&self) -> bool {
        forall|i: int|
            #![trigger self.parts.rows.values@[i]]
            0 <= i < self.parts.rows.values@.len() ==> {
                let spec = self.parts.rows.values@[i];
                let id = self.parts.rows.keys@[i];
                &&& layerable(spec.shape) || spec.layers@.len() == 0
                &&& spec.shape is Transmission ==> self.transmission_parents@.dom().contains(id)
                &&& self.transmission_parents@.dom().contains(id)
                    ==> self.parts.rows.keys@.contains(self.transmission_parents@[id])
            }
    }

    /// Whether connections name live rows.
    pub open spec fn connections_saveable(&self) -> bool {
        let parts = self.parts.rows.keys@;
        &&& forall|i: int|
            #![trigger self.welds.rows.values@[i]]
            0 <= i < self.welds.rows.values@.len() ==> self.face_live(
                self.welds.rows.values@[i].first,
            ) && self.face_live(self.welds.rows.values@[i].second)
        &&& forall|i: int|
            #![trigger self.rigid_links.rows.values@[i]]
            0 <= i < self.rigid_links.rows.values@.len() ==> parts.contains(
                self.rigid_links.rows.values@[i].first,
            ) && parts.contains(self.rigid_links.rows.values@[i].second)
        &&& forall|i: int|
            #![trigger self.bearings.rows.values@[i]]
            0 <= i < self.bearings.rows.values@.len() ==> self.face_live(
                self.bearings.rows.values@[i].source,
            ) && (self.bearings.rows.values@[i].target is Some ==> self.face_live(
                self.bearings.rows.values@[i].target->0,
            ))
        &&& forall|i: int|
            #![trigger self.shape_features.rows.values@[i]]
            0 <= i < self.shape_features.rows.values@.len() ==> self.feature_live(
                self.shape_features.rows.values@[i],
            )
    }

    /// Whether an edge feature names live rows.
    pub open spec fn feature_live(&self, feature: ShapeFeature) -> bool {
        forall|k: int|
            #![trigger feature.targets@[k]]
            0 <= k < feature.targets@.len() ==> chain_listed(
                feature.targets@[k],
                self.parts.rows.keys@,
                self.regions.rows.keys@,
                self.shape_features.rows.keys@,
            )
    }

    /// Whether wires and lanes name live rows.
    pub open spec fn controls_saveable(&self) -> bool {
        let parts = self.parts.rows.keys@;
        &&& forall|i: int|
            #![trigger self.drive_links.rows.values@[i]]
            0 <= i < self.drive_links.rows.values@.len() ==> parts.contains(
                self.drive_links.rows.values@[i].controller,
            ) && self.bearings.rows.keys@.contains(self.drive_links.rows.values@[i].bearing)
                && self.drive_links.rows.values@[i].program.wf()
        &&& forall|i: int|
            #![trigger self.input_seat_links.rows.values@[i]]
            0 <= i < self.input_seat_links.rows.values@.len() ==> parts.contains(
                self.input_seat_links.rows.values@[i].input,
            ) && parts.contains(self.input_seat_links.rows.values@[i].seat)
        &&& forall|i: int|
            #![trigger self.seat_controller_links.rows.values@[i]]
            0 <= i < self.seat_controller_links.rows.values@.len() ==> parts.contains(
                self.seat_controller_links.rows.values@[i].seat,
            ) && parts.contains(self.seat_controller_links.rows.values@[i].controller)
        &&& forall|i: int|
            #![trigger self.gearboxes.keys@[i]]
            0 <= i < self.gearboxes.keys@.len() ==> parts.contains(
                self.gearboxes.keys@[i].controller,
            )
    }

    /// Whether every live region has a grid.
    pub open spec fn regions_framed(&self) -> bool {
        forall|i: int|
            #![trigger self.regions.rows.keys@[i]]
            0 <= i < self.regions.rows.keys@.len() ==> self.frame_of_region(
                self.regions.rows.keys@[i],
            ) is Some
    }

    /// Whether a construction can be saved.
    pub open spec fn saveable(&self) -> bool {
        &&& self.wf()
        &&& self.rows_countable()
        &&& self.parts_saveable()
        &&& self.connections_saveable()
        &&& self.controls_saveable()
        &&& self.regions_framed()
    }

    /// Whether positions in `space` cover every row.
    pub open spec fn space_covers(&self, space: CanonicalSpace, sockets: Seq<BearingSocket>) -> bool {
        &&& space.frames@.len() == self.frames.frames.keys@.len()
        &&& space.bearings@.len() == self.bearings.rows.keys@.len()
        &&& space.sockets@.len() == sockets.len()
    }

    /// The row of a topology key.
    fn key_row(&self, key: TopologyKey) -> (doc: TopologyKeyDoc)
        requires
            self.wf(),
            self.rows_countable(),
            key_listed(key, self.shape_features.rows.keys@),
        ensures
            doc == key_doc_of(key, self.shape_features.rows.keys@),
    {
        let source: TopologySourceDoc = match key.source {
            TopologySource::Base => TopologySourceDoc::Base,
            TopologySource::Feature(id) => TopologySourceDoc::Feature(
                match self.shape_features.rows.index_of(id) {
                    Some(at) => at as u32,
                    None => 0,
                },
            ),
        };
        TopologyKeyDoc { source, local: key.local }
    }

    /// The row of a face.
    fn face_row(&self, face: FaceRef) -> (doc: FaceRefDoc)
        requires
            self.wf(),
            self.rows_countable(),
            self.face_live(face),
        ensures
            doc == face_doc_of(face, self.parts.rows.keys@, self.shape_features.rows.keys@),
    {
        let owner: FaceOwnerDoc = match face.owner {
            FaceOwner::Part(part) => FaceOwnerDoc::Part(self.part_row(part)),
            FaceOwner::Ground => FaceOwnerDoc::Ground,
        };
        let patch: Option<TopologyKeyDoc> = match face.patch {
            Some(key) => Some(self.key_row(key)),
            None => None,
        };
        FaceRefDoc { owner, face: face.face, patch }
    }

    /// The row of an edge chain.
    fn chain_row(&self, chain: EdgeChainRef) -> (doc: EdgeChainRefDoc)
        requires
            self.wf(),
            self.rows_countable(),
            chain_listed(
                chain,
                self.parts.rows.keys@,
                self.regions.rows.keys@,
                self.shape_features.rows.keys@,
            ),
        ensures
            doc == chain_doc_of(
                chain,
                self.parts.rows.keys@,
                self.regions.rows.keys@,
                self.shape_features.rows.keys@,
            ),
    {
        let owner: SolidOwnerDoc = match chain.owner {
            SolidOwner::Part(part) => SolidOwnerDoc::Part(self.part_row(part)),
            SolidOwner::Region(region) => SolidOwnerDoc::Region(
                match self.regions.rows.index_of(region) {
                    Some(at) => at as u32,
                    None => 0,
                },
            ),
        };
        EdgeChainRefDoc { owner, edge: self.key_row(chain.edge) }
    }

    /// The row of a grid.
    fn frame_row(&self, frame: ConstructionFrameId) -> (row: u32)
        requires
            self.wf(),
            self.rows_countable(),
            self.frames.frames.keys@.contains(frame),
        ensures
            row == row_of(self.frames.frames.keys@, frame),
    {
        match self.frames.frames.index_of(frame) {
            Some(at) => at as u32,
            None => 0,
        }
    }

    /// Rows of every grid.
    fn frame_docs(&self, space: &CanonicalSpace) -> (docs: Vec<ConstructionFrameDoc>)
        requires
            self.wf(),
            space.frames@.len() == self.frames.frames.keys@.len(),
        ensures
            docs@.len() == self.frames.frames.keys@.len(),
            forall|i: int|
                #![trigger docs@[i]]
                0 <= i < docs@.len() ==> docs@[i] == (ConstructionFrameDoc {
                    translation: self.canonical_frame(*space, i).translation,
                    rotation: self.canonical_frame(*space, i).rotation,
                }),
    {
        let canonical: bool = self.frames.view_to_build.equal(ConstructionFrame::identity());
        let mut docs: Vec<ConstructionFrameDoc> = Vec::new();
        let mut i: usize = 0;
        while i < self.frames.frames.keys.len()
            invariant
                self.wf(),
                canonical == self.canonical(),
                space.frames@.len() == self.frames.frames.keys@.len(),
                i <= self.frames.frames.keys@.len(),
                docs@.len() == i,
                forall|k: int|
                    #![trigger docs@[k]]
                    0 <= k < i ==> docs@[k] == (ConstructionFrameDoc {
                        translation: self.canonical_frame(*space, k).translation,
                        rotation: self.canonical_frame(*space, k).rotation,
                    }),
            decreases self.frames.frames.keys@.len() - i,
        {
            let frame: ConstructionFrame = if canonical {
                self.frames.frames.values[i]
            } else if self.frames.frames.keys[i].0 == 0 {
                ConstructionFrame::identity()
            } else {
                space.frames[i]
            };
            docs.push(
                ConstructionFrameDoc { translation: frame.translation, rotation: frame.rotation },
            );
            i += 1;
        }
        docs
    }

    /// Frame memberships of every part.
    fn part_memberships(&self) -> (rows: Vec<u32>)
        requires
            self.wf(),
            self.rows_countable(),
        ensures
            rows@.len() == self.parts.rows.keys@.len(),
            forall|i: int|
                #![trigger rows@[i]]
                0 <= i < rows@.len() ==> rows@[i] == row_of(
                    self.frames.frames.keys@,
                    self.frame_of_part(self.parts.rows.keys@[i])->0,
                ),
    {
        let mut rows: Vec<u32> = Vec::new();
        let mut i: usize = 0;
        while i < self.parts.rows.keys.len()
            invariant
                self.wf(),
                self.rows_countable(),
                i <= self.parts.rows.keys@.len(),
                rows@.len() == i,
                forall|k: int|
                    #![trigger rows@[k]]
                    0 <= k < i ==> rows@[k] == row_of(
                        self.frames.frames.keys@,
                        self.frame_of_part(self.parts.rows.keys@[k])->0,
                    ),
            decreases self.parts.rows.keys@.len() - i,
        {
            proof {
                self.parts.rows.lemma_index(i as int);
                assert(self.has_part(self.parts.rows.keys@[i as int]));
            }
            match self.part_frame_id(self.parts.rows.keys[i]) {
                Some(frame) => {
                    assert(self.frames.frames@.dom().contains(frame));
                    rows.push(self.frame_row(frame));
                },
                None => {
                    assert(false);
                },
            }
            i += 1;
        }
        rows
    }

    /// Frame memberships of every region.
    fn region_memberships(&self) -> (rows: Vec<u32>)
        requires
            self.wf(),
            self.rows_countable(),
            self.regions_framed(),
        ensures
            rows@.len() == self.regions.rows.keys@.len(),
            forall|i: int|
                #![trigger rows@[i]]
                0 <= i < rows@.len() ==> rows@[i] == row_of(
                    self.frames.frames.keys@,
                    self.frame_of_region(self.regions.rows.keys@[i])->0,
                ),
    {
        let mut rows: Vec<u32> = Vec::new();
        let mut i: usize = 0;
        while i < self.regions.rows.keys.len()
            invariant
                self.wf(),
                self.rows_countable(),
                self.regions_framed(),
                i <= self.regions.rows.keys@.len(),
                rows@.len() == i,
                forall|k: int|
                    #![trigger rows@[k]]
                    0 <= k < i ==> rows@[k] == row_of(
                        self.frames.frames.keys@,
                        self.frame_of_region(self.regions.rows.keys@[k])->0,
                    ),
            decreases self.regions.rows.keys@.len() - i,
        {
            let region: RegionId = self.regions.rows.keys[i];
            assert(self.frame_of_region(self.regions.rows.keys@[i as int]) is Some);
            match self.region_frame_id(region) {
                Some(frame) => {
                    assert(self.frames.frames@.dom().contains(frame));
                    rows.push(self.frame_row(frame));
                },
                None => {
                    assert(false);
                },
            }
            i += 1;
        }
        rows
    }

    /// Rows of every part.
    fn part_docs(&self) -> (docs: Vec<PartDoc>)
        requires
            self.wf(),
            self.rows_countable(),
            self.parts_saveable(),
        ensures
            docs@.len() == self.parts.rows.keys@.len(),
            forall|i: int|
                #![trigger docs@[i]]
                0 <= i < docs@.len() ==> describes_part(
                    self.parts.rows.values@[i],
                    self.parent_row(self.parts.rows.keys@[i]),
                    docs@[i],
                ),
    {
        let mut docs: Vec<PartDoc> = Vec::new();
        let mut i: usize = 0;
        while i < self.parts.rows.keys.len()
            invariant
                self.wf(),
                self.rows_countable(),
                self.parts_saveable(),
                i <= self.parts.rows.keys@.len(),
                docs@.len() == i,
                forall|k: int|
                    #![trigger docs@[k]]
                    0 <= k < i ==> describes_part(
                        self.parts.rows.values@[k],
                        self.parent_row(self.parts.rows.keys@[k]),
                        docs@[k],
                    ),
            decreases self.parts.rows.keys@.len() - i,
        {
            let spec: &PartSpec = &self.parts.rows.values[i];
            let id: PartId = self.parts.rows.keys[i];
            assert(self.parts.rows.values@[i as int] == *spec);
            let parent: Option<u32> = match self.transmission_parents.get(id) {
                Some(parent) => Some(self.part_row(*parent)),
                None => None,
            };
            docs.push(part_doc(spec, parent));
            i += 1;
        }
        docs
    }

    /// Rows of the welds that hold no transmission.
    fn weld_docs(&self) -> (docs: Vec<WeldDoc>)
        requires
            self.wf(),
            self.rows_countable(),
            self.connections_saveable(),
        ensures
            docs@ == self.plain_welds(self.welds.rows.keys@.len() as int),
    {
        let mut docs: Vec<WeldDoc> = Vec::new();
        let mut i: usize = 0;
        while i < self.welds.rows.keys.len()
            invariant
                self.wf(),
                self.rows_countable(),
                self.connections_saveable(),
                i <= self.welds.rows.keys@.len(),
                docs@ == self.plain_welds(i as int),
            decreases self.welds.rows.keys@.len() - i,
        {
            let weld: WeldSpec = self.welds.rows.values[i];
            assert(self.face_live(self.welds.rows.values@[i as int].first));
            if !self.carries_transmission(self.welds.rows.keys[i]) {
                docs.push(
                    WeldDoc {
                        first: self.face_row(weld.first),
                        second: self.face_row(weld.second),
                    },
                );
            }
            i += 1;
        }
        docs
    }

    /// Whether a weld holds a transmission to what it extends.
    fn carries_transmission(&self, weld: WeldId) -> (carries: bool)
        ensures
            carries == self.holds_transmission(weld),
    {
        let mut k: usize = 0;
        while k < self.transmission_welds.values.len()
            invariant
                k <= self.transmission_welds.values@.len(),
                forall|j: int|
                    #![trigger self.transmission_welds.values@[j]]
                    0 <= j < k ==> self.transmission_welds.values@[j] != weld,
            decreases self.transmission_welds.values@.len() - k,
        {
            if self.transmission_welds.values[k] == weld {
                assert(self.transmission_welds.values@[k as int] == weld);
                return true;
            }
            k += 1;
        }
        false
    }

    /// Rows of every rigid link.
    fn rigid_docs(&self) -> (docs: Vec<RigidLinkDoc>)
        requires
            self.wf(),
            self.rows_countable(),
            self.connections_saveable(),
        ensures
            docs@.len() == self.rigid_links.rows.values@.len(),
            forall|i: int|
                #![trigger docs@[i]]
                0 <= i < docs@.len() ==> docs@[i] == (RigidLinkDoc {
                    first: row_of(self.parts.rows.keys@, self.rigid_links.rows.values@[i].first),
                    second: row_of(self.parts.rows.keys@, self.rigid_links.rows.values@[i].second),
                }),
    {
        let mut docs: Vec<RigidLinkDoc> = Vec::new();
        let mut i: usize = 0;
        while i < self.rigid_links.rows.values.len()
            invariant
                self.wf(),
                self.rows_countable(),
                self.connections_saveable(),
                i <= self.rigid_links.rows.values@.len(),
                docs@.len() == i,
                forall|k: int|
                    #![trigger docs@[k]]
                    0 <= k < i ==> docs@[k] == (RigidLinkDoc {
                        first: row_of(
                            self.parts.rows.keys@,
                            self.rigid_links.rows.values@[k].first,
                        ),
                        second: row_of(
                            self.parts.rows.keys@,
                            self.rigid_links.rows.values@[k].second,
                        ),
                    }),
            decreases self.rigid_links.rows.values@.len() - i,
        {
            let link: RigidLinkSpec = self.rigid_links.rows.values[i];
            assert(self.parts.rows.keys@.contains(self.rigid_links.rows.values@[i as int].first));
            docs.push(
                RigidLinkDoc {
                    first: self.part_row(link.first),
                    second: self.part_row(link.second),
                },
            );
            i += 1;
        }
        docs
    }

    /// Rows of every joint.
    fn bearing_docs(&self, space: &CanonicalSpace) -> (docs: Vec<BearingDoc>)
        requires
            self.wf(),
            self.rows_countable(),
            self.connections_saveable(),
            space.bearings@.len() == self.bearings.rows.keys@.len(),
        ensures
            docs@.len() == self.bearings.rows.values@.len(),
            forall|i: int|
                #![trigger docs@[i]]
                0 <= i < docs@.len() ==> docs@[i] == bearing_doc_of(
                    self.canonical_bearing(*space, i),
                    self.parts.rows.keys@,
                    self.shape_features.rows.keys@,
                ),
    {
        let canonical: bool = self.frames.view_to_build.equal(ConstructionFrame::identity());
        let mut docs: Vec<BearingDoc> = Vec::new();
        let mut i: usize = 0;
        while i < self.bearings.rows.values.len()
            invariant
                self.wf(),
                self.rows_countable(),
                self.connections_saveable(),
                canonical == self.canonical(),
                space.bearings@.len() == self.bearings.rows.values@.len(),
                i <= self.bearings.rows.values@.len(),
                docs@.len() == i,
                forall|k: int|
                    #![trigger docs@[k]]
                    0 <= k < i ==> docs@[k] == bearing_doc_of(
                        self.canonical_bearing(*space, k),
                        self.parts.rows.keys@,
                        self.shape_features.rows.keys@,
                    ),
            decreases self.bearings.rows.values@.len() - i,
        {
            let held: BearingSpec = self.bearings.rows.values[i];
            assert(self.face_live(self.bearings.rows.values@[i as int].source));
            let bearing: BearingSpec = if canonical {
                held
            } else {
                let motion: BearingMotion = space.bearings[i];
                BearingSpec {
                    shared_anchor: motion.anchor,
                    axis: motion.axis,
                    kind: motion.kind,
                    ..held
                }
            };
            let target: Option<FaceRefDoc> = match held.target {
                Some(face) => Some(self.face_row(face)),
                None => None,
            };
            docs.push(
                BearingDoc {
                    kind: bearing.kind,
                    source: self.face_row(held.source),
                    target,
                    anchor: bearing.shared_anchor,
                    axis: bearing.axis,
                    outer_diameter: bearing.outer_diameter,
                    inner_diameter: bearing.inner_diameter,
                },
            );
            i += 1;
        }
        docs
    }

    /// The socket in row `i`, in build space.
    pub open spec fn canonical_socket(
        &self,
        space: CanonicalSpace,
        sockets: Seq<BearingSocket>,
        i: int,
    ) -> BearingSocket {
        if self.canonical() {
            sockets[i]
        } else {
            moved_socket(sockets[i], space.sockets@[i])
        }
    }

    /// Rows of unattached rings.
    fn socket_docs(&self, space: &CanonicalSpace, sockets: &Vec<BearingSocket>) -> (docs: Vec<
        BearingSocketDoc,
    >)
        requires
            self.wf(),
            self.rows_countable(),
            space.sockets@.len() == sockets@.len(),
            forall|i: int|
                #![trigger sockets@[i]]
                0 <= i < sockets@.len() ==> self.face_live(sockets@[i].source),
        ensures
            docs@.len() == sockets@.len(),
            forall|i: int|
                #![trigger docs@[i]]
                0 <= i < docs@.len() ==> docs@[i] == socket_doc_of(
                    self.canonical_socket(*space, sockets@, i),
                    self.parts.rows.keys@,
                    self.shape_features.rows.keys@,
                ),
    {
        let canonical: bool = self.frames.view_to_build.equal(ConstructionFrame::identity());
        let mut docs: Vec<BearingSocketDoc> = Vec::new();
        let mut i: usize = 0;
        while i < sockets.len()
            invariant
                self.wf(),
                self.rows_countable(),
                canonical == self.canonical(),
                space.sockets@.len() == sockets@.len(),
                forall|i: int|
                    #![trigger sockets@[i]]
                    0 <= i < sockets@.len() ==> self.face_live(sockets@[i].source),
                i <= sockets@.len(),
                docs@.len() == i,
                forall|k: int|
                    #![trigger docs@[k]]
                    0 <= k < i ==> docs@[k] == socket_doc_of(
                        self.canonical_socket(*space, sockets@, k),
                        self.parts.rows.keys@,
                        self.shape_features.rows.keys@,
                    ),
            decreases sockets@.len() - i,
        {
            let held: BearingSocket = sockets[i];
            let socket: BearingSocket = if canonical {
                held
            } else {
                let motion: BearingMotion = space.sockets[i];
                BearingSocket {
                    anchor: motion.anchor,
                    axis: motion.axis,
                    kind: motion.kind,
                    ..held
                }
            };
            docs.push(
                BearingSocketDoc {
                    kind: socket.kind,
                    axis: socket.axis,
                    source: self.face_row(held.source),
                    anchor: socket.anchor,
                    outer_diameter: socket.outer_diameter,
                    inner_diameter: socket.inner_diameter,
                },
            );
            i += 1;
        }
        docs
    }

    /// Rows of every edge feature.
    fn feature_docs(&self) -> (docs: Vec<ShapeFeatureDoc>)
        requires
            self.wf(),
            self.rows_countable(),
            self.connections_saveable(),
        ensures
            docs@.len() == self.shape_features.rows.values@.len(),
            forall|i: int|
                #![trigger docs@[i]]
                0 <= i < docs@.len() ==> describes_feature(
                    self.shape_features.rows.values@[i],
                    self.parts.rows.keys@,
                    self.regions.rows.keys@,
                    self.shape_features.rows.keys@,
                    docs@[i],
                ),
    {
        let mut docs: Vec<ShapeFeatureDoc> = Vec::new();
        let mut i: usize = 0;
        while i < self.shape_features.rows.values.len()
            invariant
                self.wf(),
                self.rows_countable(),
                self.connections_saveable(),
                i <= self.shape_features.rows.values@.len(),
                docs@.len() == i,
                forall|k: int|
                    #![trigger docs@[k]]
                    0 <= k < i ==> describes_feature(
                        self.shape_features.rows.values@[k],
                        self.parts.rows.keys@,
                        self.regions.rows.keys@,
                        self.shape_features.rows.keys@,
                        docs@[k],
                    ),
            decreases self.shape_features.rows.values@.len() - i,
        {
            let feature: &ShapeFeature = &self.shape_features.rows.values[i];
            assert(self.feature_live(self.shape_features.rows.values@[i as int]));
            let mut targets: Vec<EdgeChainRefDoc> = Vec::new();
            let mut k: usize = 0;
            while k < feature.targets.len()
                invariant
                    self.wf(),
                    self.rows_countable(),
                    self.feature_live(*feature),
                    k <= feature.targets@.len(),
                    targets@.len() == k,
                    forall|j: int|
                        #![trigger targets@[j]]
                        0 <= j < k ==> targets@[j] == chain_doc_of(
                            feature.targets@[j],
                            self.parts.rows.keys@,
                            self.regions.rows.keys@,
                            self.shape_features.rows.keys@,
                        ),
                decreases feature.targets@.len() - k,
            {
                targets.push(self.chain_row(feature.targets[k]));
                k += 1;
            }
            assert(targets@ =~= feature.targets@.map_values(
                |chain: EdgeChainRef|
                    chain_doc_of(
                        chain,
                        self.parts.rows.keys@,
                        self.regions.rows.keys@,
                        self.shape_features.rows.keys@,
                    ),
            ));
            docs.push(
                ShapeFeatureDoc {
                    targets,
                    treatment: feature.treatment,
                    amount_ticks: feature.amount_ticks,
                },
            );
            i += 1;
        }
        docs
    }

    /// Rows of every wire.
    fn link_docs(&self) -> (docs: Vec<DriveLinkDoc>)
        requires
            self.wf(),
            self.rows_countable(),
            self.controls_saveable(),
        ensures
            docs@.len() == self.drive_links.rows.values@.len(),
            forall|i: int|
                #![trigger docs@[i]]
                0 <= i < docs@.len() ==> describes_link(
                    self.drive_links.rows.values@[i],
                    self.parts.rows.keys@,
                    self.bearings.rows.keys@,
                    docs@[i],
                ),
    {
        let mut docs: Vec<DriveLinkDoc> = Vec::new();
        let mut i: usize = 0;
        while i < self.drive_links.rows.values.len()
            invariant
                self.wf(),
                self.rows_countable(),
                self.controls_saveable(),
                i <= self.drive_links.rows.values@.len(),
                docs@.len() == i,
                forall|k: int|
                    #![trigger docs@[k]]
                    0 <= k < i ==> describes_link(
                        self.drive_links.rows.values@[k],
                        self.parts.rows.keys@,
                        self.bearings.rows.keys@,
                        docs@[k],
                    ),
            decreases self.drive_links.rows.values@.len() - i,
        {
            let link: &DriveLinkSpec = &self.drive_links.rows.values[i];
            assert(self.parts.rows.keys@.contains(
                self.drive_links.rows.values@[i as int].controller,
            ));
            docs.push(
                DriveLinkDoc {
                    linear_limits: link.linear_limits,
                    controller: self.part_row(link.controller),
                    bearing: match self.bearings.rows.index_of(link.bearing) {
                        Some(at) => at as u32,
                        None => 0,
                    },
                    reversed: link.reversed,
                    actuator: link.actuator,
                    limits: limits_doc(link.limits),
                    program: program_doc(&link.program),
                    name: link.name.clone(),
                },
            );
            i += 1;
        }
        docs
    }

    /// Rows of every Input-to-Seat link.
    fn input_link_docs(&self) -> (docs: Vec<InputSeatLinkDoc>)
        requires
            self.wf(),
            self.rows_countable(),
            self.controls_saveable(),
        ensures
            docs@.len() == self.input_seat_links.rows.values@.len(),
            forall|i: int|
                #![trigger docs@[i]]
                0 <= i < docs@.len() ==> docs@[i] == (InputSeatLinkDoc {
                    input: row_of(
                        self.parts.rows.keys@,
                        self.input_seat_links.rows.values@[i].input,
                    ),
                    seat: row_of(
                        self.parts.rows.keys@,
                        self.input_seat_links.rows.values@[i].seat,
                    ),
                }),
    {
        let mut docs: Vec<InputSeatLinkDoc> = Vec::new();
        let mut i: usize = 0;
        while i < self.input_seat_links.rows.values.len()
            invariant
                self.wf(),
                self.rows_countable(),
                self.controls_saveable(),
                i <= self.input_seat_links.rows.values@.len(),
                docs@.len() == i,
                forall|k: int|
                    #![trigger docs@[k]]
                    0 <= k < i ==> docs@[k] == (InputSeatLinkDoc {
                        input: row_of(
                            self.parts.rows.keys@,
                            self.input_seat_links.rows.values@[k].input,
                        ),
                        seat: row_of(
                            self.parts.rows.keys@,
                            self.input_seat_links.rows.values@[k].seat,
                        ),
                    }),
            decreases self.input_seat_links.rows.values@.len() - i,
        {
            let link: InputSeatLinkSpec = self.input_seat_links.rows.values[i];
            assert(self.parts.rows.keys@.contains(
                self.input_seat_links.rows.values@[i as int].input,
            ));
            docs.push(
                InputSeatLinkDoc {
                    input: self.part_row(link.input),
                    seat: self.part_row(link.seat),
                },
            );
            i += 1;
        }
        docs
    }

    /// Rows of every Seat-to-Controller link.
    fn seat_link_docs(&self) -> (docs: Vec<SeatControllerLinkDoc>)
        requires
            self.wf(),
            self.rows_countable(),
            self.controls_saveable(),
        ensures
            docs@.len() == self.seat_controller_links.rows.values@.len(),
            forall|i: int|
                #![trigger docs@[i]]
                0 <= i < docs@.len() ==> docs@[i] == (SeatControllerLinkDoc {
                    seat: row_of(
                        self.parts.rows.keys@,
                        self.seat_controller_links.rows.values@[i].seat,
                    ),
                    controller: row_of(
                        self.parts.rows.keys@,
                        self.seat_controller_links.rows.values@[i].controller,
                    ),
                }),
    {
        let mut docs: Vec<SeatControllerLinkDoc> = Vec::new();
        let mut i: usize = 0;
        while i < self.seat_controller_links.rows.values.len()
            invariant
                self.wf(),
                self.rows_countable(),
                self.controls_saveable(),
                i <= self.seat_controller_links.rows.values@.len(),
                docs@.len() == i,
                forall|k: int|
                    #![trigger docs@[k]]
                    0 <= k < i ==> docs@[k] == (SeatControllerLinkDoc {
                        seat: row_of(
                            self.parts.rows.keys@,
                            self.seat_controller_links.rows.values@[k].seat,
                        ),
                        controller: row_of(
                            self.parts.rows.keys@,
                            self.seat_controller_links.rows.values@[k].controller,
                        ),
                    }),
            decreases self.seat_controller_links.rows.values@.len() - i,
        {
            let link: SeatControllerLinkSpec = self.seat_controller_links.rows.values[i];
            assert(self.parts.rows.keys@.contains(
                self.seat_controller_links.rows.values@[i as int].seat,
            ));
            docs.push(
                SeatControllerLinkDoc {
                    seat: self.part_row(link.seat),
                    controller: self.part_row(link.controller),
                },
            );
            i += 1;
        }
        docs
    }

    /// Rows of every gear lane.
    fn lane_docs(&self) -> (docs: Vec<GearboxConfigDoc>)
        requires
            self.wf(),
            self.rows_countable(),
            self.controls_saveable(),
        ensures
            docs@.len() == self.gearboxes.keys@.len(),
            forall|i: int|
                #![trigger docs@[i]]
                0 <= i < docs@.len() ==> describes_lane(
                    self.gearboxes.keys@[i],
                    self.gearboxes.values@[i],
                    self.parts.rows.keys@,
                    docs@[i],
                ),
    {
        let mut docs: Vec<GearboxConfigDoc> = Vec::new();
        let mut i: usize = 0;
        while i < self.gearboxes.keys.len()
            invariant
                self.wf(),
                self.rows_countable(),
                self.controls_saveable(),
                i <= self.gearboxes.keys@.len(),
                docs@.len() == i,
                forall|k: int|
                    #![trigger docs@[k]]
                    0 <= k < i ==> describes_lane(
                        self.gearboxes.keys@[k],
                        self.gearboxes.values@[k],
                        self.parts.rows.keys@,
                        docs@[k],
                    ),
            decreases self.gearboxes.keys@.len() - i,
        {
            let lane: GearLane = self.gearboxes.keys[i];
            let config: &GearboxConfig = &self.gearboxes.values[i];
            assert(self.parts.rows.keys@.contains(self.gearboxes.keys@[i as int].controller));
            docs.push(
                GearboxConfigDoc {
                    controller: self.part_row(lane.controller),
                    kind: lane.kind,
                    mode: config.mode,
                    ratios: copy_ratios(&config.ratios),
                    reverse_gears: config.reverse_gears,
                    gear_up: config.gear_up,
                    gear_down: config.gear_down,
                },
            );
            i += 1;
        }
        docs
    }

    /// Rows of every region.
    fn region_docs(&self) -> (docs: Vec<RegionDoc>)
        requires
            self.wf(),
        ensures
            docs@.len() == self.regions.rows.values@.len(),
            forall|i: int|
                #![trigger docs@[i]]
                0 <= i < docs@.len() ==> describes_region(
                    self.regions.rows.values@[i],
                    docs@[i],
                ),
    {
        let mut docs: Vec<RegionDoc> = Vec::new();
        let mut i: usize = 0;
        while i < self.regions.rows.values.len()
            invariant
                self.wf(),
                i <= self.regions.rows.values@.len(),
                docs@.len() == i,
                forall|k: int|
                    #![trigger docs@[k]]
                    0 <= k < i ==> describes_region(self.regions.rows.values@[k], docs@[k]),
            decreases self.regions.rows.values@.len() - i,
        {
            let region: &ShapeRegion = &self.regions.rows.values[i];
            docs.push(
                RegionDoc {
                    origin_steps: region.origin_steps.to_array(),
                    size_cells: region.size_cells.to_array(),
                    material: region.material,
                    appearance: region.appearance,
                    divisions_x: copy_rows(&region.divisions_x),
                    divisions_y: copy_rows(&region.divisions_y),
                    divisions_z: copy_rows(&region.divisions_z),
                    vertices: copy_rows(&region.vertices),
                },
            );
            i += 1;
        }
        docs
    }
}

/// A copy of plain rows.
pub(crate) fn copy_rows<T: Copy>(rows: &Vec<T>) -> (copy: Vec<T>)
    ensures
        copy@ == rows@,
{
    let mut copy: Vec<T> = Vec::new();
    let mut i: usize = 0;
    while i < rows.len()
        invariant
            i <= rows@.len(),
            copy@ =~= rows@.take(i as int),
        decreases rows@.len() - i,
    {
        copy.push(rows[i]);
        i += 1;
    }
    copy
}

/// A copy of ratios.
fn copy_ratios(ratios: &Vec<Scalar>) -> (copy: Vec<Scalar>)
    ensures
        copy@ == ratios@,
{
    copy_rows(ratios)
}

impl CreationDocument {
    /// Whether this document captures a construction and its unattached rings.
    pub open spec fn captures(
        &self,
        graph: &ConstructionGraph,
        sockets: Seq<BearingSocket>,
        space: CanonicalSpace,
    ) -> bool {
        let parts = graph.parts.rows.keys@;
        let regions = graph.regions.rows.keys@;
        let features = graph.shape_features.rows.keys@;
        let bearings = graph.bearings.rows.keys@;
        let frames = graph.frames.frames.keys@;
        &&& self.version == CREATION_FORMAT_VERSION
        &&& self.parts@.len() == parts.len()
        &&& forall|i: int|
            #![trigger self.parts@[i]]
            0 <= i < self.parts@.len() ==> describes_part(
                graph.parts.rows.values@[i],
                graph.parent_row(parts[i]),
                self.parts@[i],
            )
        &&& self.frames@.len() == frames.len()
        &&& forall|i: int|
            #![trigger self.frames@[i]]
            0 <= i < self.frames@.len() ==> self.frames@[i] == (ConstructionFrameDoc {
                translation: graph.canonical_frame(space, i).translation,
                rotation: graph.canonical_frame(space, i).rotation,
            })
        &&& self.part_frames@.len() == parts.len()
        &&& forall|i: int|
            #![trigger self.part_frames@[i]]
            0 <= i < self.part_frames@.len() ==> self.part_frames@[i] == row_of(
                frames,
                graph.frame_of_part(parts[i])->0,
            )
        &&& self.region_frames@.len() == regions.len()
        &&& forall|i: int|
            #![trigger self.region_frames@[i]]
            0 <= i < self.region_frames@.len() ==> self.region_frames@[i] == row_of(
                frames,
                graph.frame_of_region(regions[i])->0,
            )
        &&& self.welds@ == graph.plain_welds(graph.welds.rows.keys@.len() as int)
        &&& self.rigid_links@.len() == graph.rigid_links.rows.values@.len()
        &&& forall|i: int|
            #![trigger self.rigid_links@[i]]
            0 <= i < self.rigid_links@.len() ==> self.rigid_links@[i] == (RigidLinkDoc {
                first: row_of(parts, graph.rigid_links.rows.values@[i].first),
                second: row_of(parts, graph.rigid_links.rows.values@[i].second),
            })
        &&& self.bearings@.len() == bearings.len()
        &&& forall|i: int|
            #![trigger self.bearings@[i]]
            0 <= i < self.bearings@.len() ==> self.bearings@[i] == bearing_doc_of(
                graph.canonical_bearing(space, i),
                parts,
                features,
            )
        &&& self.drive_links@.len() == graph.drive_links.rows.values@.len()
        &&& forall|i: int|
            #![trigger self.drive_links@[i]]
            0 <= i < self.drive_links@.len() ==> describes_link(
                graph.drive_links.rows.values@[i],
                parts,
                bearings,
                self.drive_links@[i],
            )
        &&& self.input_seat_links@.len() == graph.input_seat_links.rows.values@.len()
        &&& forall|i: int|
            #![trigger self.input_seat_links@[i]]
            0 <= i < self.input_seat_links@.len() ==> self.input_seat_links@[i] == (
            InputSeatLinkDoc {
                input: row_of(parts, graph.input_seat_links.rows.values@[i].input),
                seat: row_of(parts, graph.input_seat_links.rows.values@[i].seat),
            })
        &&& self.seat_controller_links@.len() == graph.seat_controller_links.rows.values@.len()
        &&& forall|i: int|
            #![trigger self.seat_controller_links@[i]]
            0 <= i < self.seat_controller_links@.len() ==> self.seat_controller_links@[i] == (
            SeatControllerLinkDoc {
                seat: row_of(parts, graph.seat_controller_links.rows.values@[i].seat),
                controller: row_of(
                    parts,
                    graph.seat_controller_links.rows.values@[i].controller,
                ),
            })
        &&& self.gearbox_configs@.len() == graph.gearboxes.keys@.len()
        &&& forall|i: int|
            #![trigger self.gearbox_configs@[i]]
            0 <= i < self.gearbox_configs@.len() ==> describes_lane(
                graph.gearboxes.keys@[i],
                graph.gearboxes.values@[i],
                parts,
                self.gearbox_configs@[i],
            )
        &&& self.regions@.len() == regions.len()
        &&& forall|i: int|
            #![trigger self.regions@[i]]
            0 <= i < self.regions@.len() ==> describes_region(
                graph.regions.rows.values@[i],
                self.regions@[i],
            )
        &&& self.shape_features@.len() == features.len()
        &&& forall|i: int|
            #![trigger self.shape_features@[i]]
            0 <= i < self.shape_features@.len() ==> describes_feature(
                graph.shape_features.rows.values@[i],
                parts,
                regions,
                features,
                self.shape_features@[i],
            )
        &&& self.sockets@.len() == sockets.len()
        &&& forall|i: int|
            #![trigger self.sockets@[i]]
            0 <= i < self.sockets@.len() ==> self.sockets@[i] == socket_doc_of(
                graph.canonical_socket(space, sockets, i),
                parts,
                features,
            )
    }

    /// Captures a construction and its unattached joint rings.
    ///
    /// A construction that is seen from build space is captured exactly as it
    /// stands; from any other space, its grids, joints and rings are captured
    /// as `space` gives them.
    pub fn from_graph(
        graph: &ConstructionGraph,
        name: &str,
        sockets: &Vec<BearingSocket>,
        space: &CanonicalSpace,
    ) -> (document: Self)
        requires
            graph.saveable(),
            graph.space_covers(*space, sockets@),
            forall|i: int|
                #![trigger sockets@[i]]
                0 <= i < sockets@.len() ==> graph.face_live(sockets@[i].source),
        ensures
            document.captures(graph, sockets@, *space),
            document.name@ == name@,
    {
        CreationDocument {
            version: CREATION_FORMAT_VERSION,
            name: name.to_owned(),
            parts: graph.part_docs(),
            frames: graph.frame_docs(space),
            part_frames: graph.part_memberships(),
            region_frames: graph.region_memberships(),
            welds: graph.weld_docs(),
            rigid_links: graph.rigid_docs(),
            bearings: graph.bearing_docs(space),
            drive_links: graph.link_docs(),
            input_seat_links: graph.input_link_docs(),
            seat_controller_links: graph.seat_link_docs(),
            gearbox_configs: graph.lane_docs(),
            regions: graph.region_docs(),
            shape_features: graph.feature_docs(),
            sockets: graph.socket_docs(space, sockets),
        }
    }
}

/// A row's position names what stands there.
proof fn lemma_row_of<K>(ids: Seq<K>, id: K)
    requires
        ids.contains(id),
        ids.len() <= u32::MAX,
    ensures
        row_of(ids, id) < ids.len(),
        ids[row_of(ids, id) as int] == id,
{
    assert(ids[ids.index_of(id)] == id);
}

/// What is captured of a construction in build space stands in the rows as it
/// stood: joints with their anchors, axes, motions and diameters, rigid links
/// and logical links by the position of their parts, each in its role.
pub proof fn connections_are_captured_as_they_stand(
    document: &CreationDocument,
    graph: &ConstructionGraph,
    sockets: Seq<BearingSocket>,
    space: CanonicalSpace,
    i: int,
)
    requires
        graph.saveable(),
        document.captures(graph, sockets, space),
    ensures
        0 <= i < document.rigid_links@.len() ==> {
            let row = document.rigid_links@[i];
            let link = graph.rigid_links.rows.values@[i];
            &&& graph.parts.rows.keys@[row.first as int] == link.first
            &&& graph.parts.rows.keys@[row.second as int] == link.second
        },
        0 <= i < document.input_seat_links@.len() ==> {
            let row = document.input_seat_links@[i];
            let link = graph.input_seat_links.rows.values@[i];
            &&& graph.parts.rows.keys@[row.input as int] == link.input
            &&& graph.parts.rows.keys@[row.seat as int] == link.seat
        },
        0 <= i < document.seat_controller_links@.len() ==> {
            let row = document.seat_controller_links@[i];
            let link = graph.seat_controller_links.rows.values@[i];
            &&& graph.parts.rows.keys@[row.seat as int] == link.seat
            &&& graph.parts.rows.keys@[row.controller as int] == link.controller
        },
        0 <= i < document.bearings@.len() && graph.canonical() ==> {
            let row = document.bearings@[i];
            let joint = graph.bearings.rows.values@[i];
            &&& row.anchor == joint.shared_anchor && row.axis == joint.axis && row.kind == joint.kind
            &&& row.outer_diameter == joint.outer_diameter
            &&& row.inner_diameter == joint.inner_diameter
            &&& row.source.face == joint.source.face
            &&& row.target is Some <==> joint.target is Some
            &&& joint.target is Some ==> row.target->0.face == joint.target->0.face
        },
        0 <= i < document.bearings@.len() && !graph.canonical() ==> {
            let row = document.bearings@[i];
            &&& row.anchor == space.bearings@[i].anchor && row.axis == space.bearings@[i].axis
            &&& row.outer_diameter == graph.bearings.rows.values@[i].outer_diameter
            &&& row.source.face == graph.bearings.rows.values@[i].source.face
        },
{
    let parts = graph.parts.rows.keys@;
    if 0 <= i < document.rigid_links@.len() {
        let row = document.rigid_links@[i];
        let link = graph.rigid_links.rows.values@[i];
        lemma_row_of(parts, link.first);
        lemma_row_of(parts, link.second);
    }
    if 0 <= i < document.input_seat_links@.len() {
        let row = document.input_seat_links@[i];
        let link = graph.input_seat_links.rows.values@[i];
        lemma_row_of(parts, link.input);
        lemma_row_of(parts, link.seat);
    }
    if 0 <= i < document.seat_controller_links@.len() {
        let row = document.seat_controller_links@[i];
        let link = graph.seat_controller_links.rows.values@[i];
        lemma_row_of(parts, link.seat);
        lemma_row_of(parts, link.controller);
    }
    if 0 <= i < document.bearings@.len() {
        let row = document.bearings@[i];
    }
}

/// Wires, lanes, regions and grids are captured with all their settings.
pub proof fn controls_are_captured_as_they_stand(
    document: &CreationDocument,
    graph: &ConstructionGraph,
    sockets: Seq<BearingSocket>,
    space: CanonicalSpace,
    i: int,
)
    requires
        graph.saveable(),
        document.captures(graph, sockets, space),
    ensures
        0 <= i < document.drive_links@.len() ==> {
            let row = document.drive_links@[i];
            let wire = graph.drive_links.rows.values@[i];
            &&& graph.parts.rows.keys@[row.controller as int] == wire.controller
            &&& graph.bearings.rows.keys@[row.bearing as int] == wire.bearing
            &&& row.reversed == wire.reversed && row.actuator == wire.actuator
            &&& row.linear_limits == wire.linear_limits && row.name@ == wire.name@
            &&& row.limits.max_speed_rad_s == wire.limits.max_speed_rad_s
            &&& row.limits.angle_limits == wire.limits.angle_limits
            &&& row.program.loops == wire.program.looping()
            &&& row.program.states@.len() == wire.program@.len()
        },
        0 <= i < document.gearbox_configs@.len() ==> {
            let row = document.gearbox_configs@[i];
            let lane = graph.gearboxes.keys@[i];
            let config = graph.gearboxes.values@[i];
            &&& graph.parts.rows.keys@[row.controller as int] == lane.controller
            &&& row.kind == lane.kind && row.mode == config.mode && row.ratios@ == config.ratios@
            &&& row.reverse_gears == config.reverse_gears
            &&& row.gear_up == config.gear_up && row.gear_down == config.gear_down
        },
        0 <= i < document.regions@.len() ==> {
            let row = document.regions@[i];
            let region = graph.regions.rows.values@[i];
            &&& row.origin_steps@[0] == region.origin_steps.x && row.origin_steps@[1]
                == region.origin_steps.y && row.origin_steps@[2] == region.origin_steps.z
            &&& row.size_cells@[0] == region.size_cells.x && row.size_cells@[1]
                == region.size_cells.y && row.size_cells@[2] == region.size_cells.z
            &&& row.divisions_x@ == region.divisions_x@ && row.divisions_y@ == region.divisions_y@
                && row.divisions_z@ == region.divisions_z@ && row.vertices@ == region.vertices@
            &&& row.material == region.material && row.appearance == region.appearance
        },
        0 <= i < document.shape_features@.len() ==> {
            let row = document.shape_features@[i];
            let feature = graph.shape_features.rows.values@[i];
            &&& row.targets@.len() == feature.targets@.len()
            &&& row.treatment == feature.treatment && row.amount_ticks == feature.amount_ticks
        },
        0 <= i < document.sockets@.len() && graph.canonical() ==> {
            let row = document.sockets@[i];
            let ring = sockets[i];
            &&& row.anchor == ring.anchor && row.axis == ring.axis && row.kind == ring.kind
            &&& row.outer_diameter == ring.outer_diameter
            &&& row.inner_diameter == ring.inner_diameter && row.source.face == ring.source.face
        },
        0 <= i < document.frames@.len() && graph.canonical() ==> {
            let row = document.frames@[i];
            let grid = graph.frames.frames.values@[i];
            row.translation == grid.translation && row.rotation == grid.rotation
        },
        0 <= i < document.frames@.len() && !graph.canonical() ==> {
            let row = document.frames@[i];
            let grid = if graph.frames.frames.keys@[i].0 == 0 {
                ConstructionFrame::identity()
            } else {
                space.frames@[i]
            };
            row.translation == grid.translation && row.rotation == grid.rotation
        },
{
    let parts = graph.parts.rows.keys@;
    if 0 <= i < document.drive_links@.len() {
        let row = document.drive_links@[i];
        let wire = graph.drive_links.rows.values@[i];
        lemma_row_of(parts, wire.controller);
        lemma_row_of(graph.bearings.rows.keys@, wire.bearing);
    }
    if 0 <= i < document.gearbox_configs@.len() {
        let row = document.gearbox_configs@[i];
        lemma_row_of(parts, graph.gearboxes.keys@[i].controller);
    }
    if 0 <= i < document.regions@.len() {
        let row = document.regions@[i];
    }
    if 0 <= i < document.shape_features@.len() {
        let row = document.shape_features@[i];
    }
    if 0 <= i < document.sockets@.len() {
        let row = document.sockets@[i];
    }
    if 0 <= i < document.frames@.len() {
        let row = document.frames@[i];
    }
}

/// A weld is written exactly when it holds no transmission to what it extends:
/// those come back with their parts.
pub proof fn transmission_welds_are_left_out(graph: &ConstructionGraph, count: int, i: int)
    requires
        0 <= i < count <= graph.welds.rows.keys@.len(),
    ensures
        (forall|k: int|
            #![trigger graph.transmission_welds.values@[k]]
            0 <= k < graph.transmission_welds.values@.len() ==> graph.transmission_welds.values@[k]
                != graph.welds.rows.keys@[i]) ==> graph.plain_welds(count).contains(
            weld_doc_of(
                graph.welds.rows.values@[i],
                graph.parts.rows.keys@,
                graph.shape_features.rows.keys@,
            ),
        ),
        (forall|k: int|
            #![trigger graph.welds.rows.keys@[k]]
            0 <= k < count ==> graph.transmission_welds.values@.contains(
                graph.welds.rows.keys@[k],
            )) ==> graph.plain_welds(count).len() == 0,
        graph.plain_welds(count).len() <= count,
    decreases count,
{
    let last = graph.welds.rows.keys@[count - 1];
    if i < count - 1 {
        transmission_welds_are_left_out(graph, count - 1, i);
    } else if count > 1 {
        transmission_welds_are_left_out(graph, count - 1, 0);
    }
    if graph.transmission_welds.values@.contains(last) {
        let at = graph.transmission_welds.values@.index_of(last);
        assert(graph.transmission_welds.values@[at] == last);
        assert(graph.holds_transmission(last));
    }
    broadcast use vstd::seq_lib::group_seq_properties;

}

/// Both faces of a weld are written in order, by the position of their parts.
pub proof fn welds_are_written_in_order(graph: &ConstructionGraph, weld: WeldSpec)
    requires
        graph.face_live(weld.first),
        graph.face_live(weld.second),
        graph.rows_countable(),
    ensures
        ({
            let parts = graph.parts.rows.keys@;
            let row = weld_doc_of(weld, parts, graph.shape_features.rows.keys@);
            &&& row.first.face == weld.first.face && row.second.face == weld.second.face
            &&& weld.first.owner is Part ==> parts[row.first.owner->Part_0 as int]
                == weld.first.owner->Part_0
            &&& weld.second.owner is Part ==> parts[row.second.owner->Part_0 as int]
                == weld.second.owner->Part_0
            &&& weld.first.owner is Ground <==> row.first.owner is Ground
            &&& weld.second.owner is Ground <==> row.second.owner is Ground
        }),
{
    let parts = graph.parts.rows.keys@;
    let features = graph.shape_features.rows.keys@;
    rows_name_by_position(weld.first, parts, features);
    rows_name_by_position(weld.second, parts, features);
}

} // verus!
