//! What is saved comes back.
//!
//! Loading hands out new handles, so a construction comes back up to a renaming:
//! the row that a handle had in the document decides the handle that it gets.

use vstd::prelude::*;

use super::connect::{
    bearing_faults, bearing_ids, bearing_mount_faults, chain_faults, feature_faults, feature_ids, feature_of_doc,
    first_fault, input_link_faults, lemma_no_fault, region_ids, resolved_bearing, resolved_weld,
    rigid_faults, seat_link_faults, socket_faults, weld_faults, weld_patched, welds_of, welds_where,
    wire_faults, wire_of_doc,
};
use super::doc::{
    CreationDocument, CreationError, JointCheck, PartDoc, PartError, RingCheck, WeldDoc,
};
use super::lanes::{lane_faults, lane_of, last_lane_row};
use super::load::{
    frame_faults, frame_ids, frames_back, lemma_full_order, membership_faults, named_grids,
    valid_frames, LoadChecks, LoadedCreation,
};
use super::regions::{lemma_planes_in_order, region_doc_fault, region_faults, region_of_doc};
use super::replay::{
    anchored, anchored_within, first_part_fault, first_unanchored, lemma_all_anchored,
    lemma_faultless_part, part_row_fault, replay_order, standing_parts_come_back_once,
};
use super::rows::{
    chain_doc_of, chain_listed, describes_part, face_doc_of, face_listed, keys_valid,
    limits_survive_saving, parent_in, parts_survive_saving, programs_survive_saving, resolved_chain,
    resolved_face, row_of,
};
use super::snapshot::{
    bearing_doc_of, describes_feature, describes_lane, describes_link, describes_region,
    socket_doc_of, weld_doc_of, CanonicalSpace,
};
use super::spawn::part_ids;
use crate::frame::{ConstructionFrame, FrameError};
use crate::graph::{ConstructionGraph, GearLane};
use crate::ids::{BearingId, PartId, RegionId, ShapeFeatureId};
use crate::ordered::lemma_ascending_distinct;
use crate::parts::{
    BearingSocket, BearingSpec, EdgeChainRef, FaceOwner, FaceRef, PartShape, SolidOwner,
    TopologyKey, TopologySource, WeldSpec,
};
use crate::region::ShapeRegion;

verus! {

/// Handles before saving, row by row, and the handles that parts get by loading.
pub ghost struct Renaming {
    pub parts: Seq<PartId>,
    pub ids: Seq<PartId>,
    pub regions: Seq<RegionId>,
    pub features: Seq<ShapeFeatureId>,
    pub bearings: Seq<BearingId>,
}

/// The renaming of a construction that a document captures.
pub open spec fn renaming(graph: &ConstructionGraph, document: &CreationDocument) -> Renaming {
    Renaming {
        parts: graph.parts.rows.keys@,
        ids: part_ids(document.parts@),
        regions: graph.regions.rows.keys@,
        features: graph.shape_features.rows.keys@,
        bearings: graph.bearings.rows.keys@,
    }
}

impl Renaming {
    /// The new handle of a part.
    pub open spec fn part(self, part: PartId) -> PartId {
        self.ids[row_of(self.parts, part) as int]
    }

    /// The new handle of a region.
    pub open spec fn region(self, region: RegionId) -> RegionId {
        RegionId { index: row_of(self.regions, region), generation: 0 }
    }

    /// The new handle of a feature.
    pub open spec fn feature(self, feature: ShapeFeatureId) -> ShapeFeatureId {
        ShapeFeatureId { index: row_of(self.features, feature), generation: 0 }
    }

    /// The new handle of a joint.
    pub open spec fn bearing(self, bearing: BearingId) -> BearingId {
        BearingId { index: row_of(self.bearings, bearing), generation: 0 }
    }

    /// A topology key over new handles.
    pub open spec fn key(self, key: TopologyKey) -> TopologyKey {
        TopologyKey {
            source: match key.source {
                TopologySource::Base => TopologySource::Base,
                TopologySource::Feature(id) => TopologySource::Feature(self.feature(id)),
            },
            local: key.local,
        }
    }

    /// A face over new handles.
    pub open spec fn face(self, face: FaceRef) -> FaceRef {
        FaceRef {
            owner: match face.owner {
                FaceOwner::Part(id) => FaceOwner::Part(self.part(id)),
                FaceOwner::Ground => FaceOwner::Ground,
            },
            face: face.face,
            patch: match face.patch {
                Some(key) => Some(self.key(key)),
                None => None,
            },
        }
    }

    /// A weld over new handles.
    pub open spec fn weld(self, weld: WeldSpec) -> WeldSpec {
        WeldSpec { first: self.face(weld.first), second: self.face(weld.second) }
    }

    /// An edge chain over new handles.
    pub open spec fn chain(self, chain: EdgeChainRef) -> EdgeChainRef {
        EdgeChainRef {
            owner: match chain.owner {
                SolidOwner::Part(id) => SolidOwner::Part(self.part(id)),
                SolidOwner::Region(id) => SolidOwner::Region(self.region(id)),
            },
            edge: self.key(chain.edge),
        }
    }

    /// A joint over new handles.
    pub open spec fn joint(self, bearing: BearingSpec) -> BearingSpec {
        BearingSpec {
            source: self.face(bearing.source),
            target: match bearing.target {
                Some(face) => Some(self.face(face)),
                None => None,
            },
            ..bearing
        }
    }

    /// A ring over new handles.
    pub open spec fn socket(self, socket: BearingSocket) -> BearingSocket {
        BearingSocket { source: self.face(socket.source), ..socket }
    }

    /// A gear lane over new handles.
    pub open spec fn lane(self, lane: GearLane) -> GearLane {
        GearLane { controller: self.part(lane.controller), kind: lane.kind }
    }

    /// Every part has a new handle, and rows can be counted.
    pub open spec fn covers(self) -> bool {
        &&& self.ids.len() == self.parts.len() <= u32::MAX
        &&& self.regions.len() <= u32::MAX
        &&& self.features.len() <= u32::MAX
        &&& self.bearings.len() <= u32::MAX
    }
}

/// The ground has no trimmed or generated surfaces.
pub open spec fn ground_untrimmed(face: FaceRef) -> bool {
    face.owner is Ground ==> face.patch is None
}

/// A listed handle's row holds that handle.
pub(crate) proof fn lemma_row<K>(ids: Seq<K>, id: K)
    requires
        ids.contains(id),
        ids.len() <= u32::MAX,
    ensures
        row_of(ids, id) < ids.len(),
        ids[row_of(ids, id) as int] == id,
{
    let at = ids.index_of(id);
    assert(ids[at] == id);
}

/// A saved face comes back over new handles.
proof fn lemma_face(names: Renaming, face: FaceRef)
    requires
        names.covers(),
        face_listed(face, names.parts, names.features),
        ground_untrimmed(face),
    ensures
        resolved_face(
            face_doc_of(face, names.parts, names.features),
            names.ids,
            feature_ids(names.features.len()),
        ) == Ok::<FaceRef, CreationError>(names.face(face)),
        face.patch is None ==> resolved_face(
            face_doc_of(face, names.parts, names.features),
            names.ids,
            Seq::<ShapeFeatureId>::empty(),
        ) == Ok::<FaceRef, CreationError>(names.face(face)),
{
    if face.owner is Part {
        lemma_row(names.parts, face.owner->Part_0);
    }
    if face.patch is Some && face.patch->0.source is Feature {
        lemma_row(names.features, face.patch->0.source->Feature_0);
    }
}

/// A saved edge chain comes back over new handles.
proof fn lemma_chain(names: Renaming, chain: EdgeChainRef, earlier: nat)
    requires
        names.covers(),
        chain_listed(chain, names.parts, names.regions, names.features),
        chain.edge.source is Feature ==> row_of(names.features, chain.edge.source->Feature_0)
            < earlier,
        earlier <= names.features.len(),
    ensures
        resolved_chain(
            chain_doc_of(chain, names.parts, names.regions, names.features),
            names.ids,
            region_ids(names.regions.len()),
            feature_ids(earlier),
        ) == Ok::<EdgeChainRef, CreationError>(names.chain(chain)),
{
    match chain.owner {
        SolidOwner::Part(id) => {
            lemma_row(names.parts, id);
        },
        SolidOwner::Region(id) => {
            lemma_row(names.regions, id);
        },
    }
}

impl ConstructionGraph {
    /// Whether a part stands on one that is no transmission, at most `steps` upstream.
    pub open spec fn stands_within(&self, part: PartId, steps: nat) -> bool
        decreases steps,
    {
        ||| !(self.parts.rows@[part].shape is Transmission)
        ||| steps > 0 && self.stands_within(self.transmission_parents@[part], (steps - 1) as nat)
    }

    /// Whether a part stands on one that is no transmission.
    pub open spec fn stands(&self, part: PartId) -> bool {
        exists|steps: nat| #[trigger] self.stands_within(part, steps)
    }

    /// Whether a part can be put back: a cuboid has sides, and a transmission
    /// stands on what it extends, on the same grid.
    pub open spec fn part_sound(&self, part: PartId) -> bool {
        let spec = self.parts.rows@[part];
        &&& spec.shape matches PartShape::Cuboid { dimensions, .. } ==> dimensions.x != 0
            && dimensions.y != 0 && dimensions.z != 0
        &&& self.stands(part)
        &&& spec.shape is Transmission ==> self.frame_of_part(part) == self.frame_of_part(
            self.transmission_parents@[part],
        )
    }

    /// Whether every part can be put back.
    pub open spec fn parts_sound(&self) -> bool {
        forall|i: int|
            #![trigger self.parts.rows.keys@[i]]
            0 <= i < self.parts.rows.keys@.len() ==> self.part_sound(self.parts.rows.keys@[i])
    }

    /// Whether connections can be put back: no ground face is trimmed, joints
    /// start and end on parts, and features treat chains of earlier features alone.
    pub open spec fn connections_sound(&self) -> bool {
        &&& forall|i: int|
            #![trigger self.welds.rows.values@[i]]
            0 <= i < self.welds.rows.values@.len() ==> ground_untrimmed(
                self.welds.rows.values@[i].first,
            ) && ground_untrimmed(self.welds.rows.values@[i].second)
        &&& forall|i: int|
            #![trigger self.bearings.rows.values@[i]]
            0 <= i < self.bearings.rows.values@.len()
                ==> self.bearings.rows.values@[i].source.owner is Part && (
            self.bearings.rows.values@[i].target is Some
                ==> self.bearings.rows.values@[i].target->0.owner is Part)
        &&& forall|i: int|
            #![trigger self.shape_features.rows.values@[i]]
            0 <= i < self.shape_features.rows.values@.len() ==> self.feature_sound(i)
    }

    /// Whether a feature treats chains of earlier features alone.
    pub open spec fn feature_sound(&self, i: int) -> bool {
        let feature = self.shape_features.rows.values@[i];
        forall|k: int|
            #![trigger feature.targets@[k]]
            0 <= k < feature.targets@.len() && feature.targets@[k].edge.source is Feature
                ==> row_of(
                self.shape_features.rows.keys@,
                feature.targets@[k].edge.source->Feature_0,
            ) < i
    }

    /// Whether controls can be put back: envelopes, programs and strips are
    /// valid, and electric lanes have no reverse bank.
    pub open spec fn controls_sound(&self) -> bool {
        &&& forall|i: int|
            #![trigger self.drive_links.rows.values@[i]]
            0 <= i < self.drive_links.rows.values@.len() ==> self.drive_links.rows.values@[i].limits.wf()
                && keys_valid(self.drive_links.rows.values@[i].program@)
        &&& forall|i: int|
            #![trigger self.gearboxes.values@[i]]
            0 <= i < self.gearboxes.values@.len() ==> self.gearboxes.values@[i].wf()
        &&& forall|i: int|
            #![trigger self.gearboxes.values@[i]]
            0 <= i < self.gearboxes.values@.len() && self.gearboxes.keys@[i].kind is Electric
                ==> self.gearboxes.values@[i].reverse_gears == 0
    }

    /// Whether a construction can be saved and put back.
    pub open spec fn sound(&self) -> bool {
        &&& self.saveable()
        &&& self.parts_sound()
        &&& self.connections_sound()
        &&& self.controls_sound()
    }
}

/// A part that stands on something has a row that stands on something.
proof fn lemma_anchored(
    graph: &ConstructionGraph,
    document: &CreationDocument,
    sockets: Seq<BearingSocket>,
    space: CanonicalSpace,
    row: int,
    steps: nat,
)
    requires
        graph.saveable(),
        document.captures(graph, sockets, space),
        0 <= row < graph.parts.rows.keys@.len(),
        graph.stands_within(graph.parts.rows.keys@[row], steps),
    ensures
        anchored_within(document.parts@, row, steps),
    decreases steps,
{
    let id = graph.parts.rows.keys@[row];
    graph.parts.rows.lemma_index(row);
    assert(describes_part(
        graph.parts.rows.values@[row],
        graph.parent_row(id),
        document.parts@[row],
    ));
    assert(graph.parts.rows.values@[row].shape is Transmission ==> graph.parts.rows.keys@.contains(
        graph.transmission_parents@[id],
    ));
    if graph.parts.rows.values@[row].shape is Transmission {
        let parent = graph.transmission_parents@[id];
        lemma_row(graph.parts.rows.keys@, parent);
        lemma_anchored(
            graph,
            document,
            sockets,
            space,
            row_of(graph.parts.rows.keys@, parent) as int,
            (steps - 1) as nat,
        );
    }
}

/// Rows without faults have no earliest one.
proof fn lemma_parts_faultless(
    docs: Seq<PartDoc>,
    checks: Seq<Result<(), PartError>>,
    part_frames: Seq<u32>,
    count: int,
)
    requires
        forall|i: int|
            0 <= i < count ==> #[trigger] part_row_fault(docs, checks, part_frames, i) is None,
        forall|i: int| 0 <= i < count ==> #[trigger] anchored(docs, i),
    ensures
        first_part_fault(docs, checks, part_frames, count) is None,
        first_unanchored(docs, count) is None,
    decreases count,
{
    if count > 0 {
        lemma_parts_faultless(docs, checks, part_frames, count - 1);
        assert(part_row_fault(docs, checks, part_frames, count - 1) is None);
    }
}

/// Parts of a sound construction load.
proof fn lemma_parts_load(
    graph: &ConstructionGraph,
    document: &CreationDocument,
    sockets: Seq<BearingSocket>,
    space: CanonicalSpace,
    checks: Seq<Result<(), PartError>>,
)
    requires
        graph.sound(),
        document.captures(graph, sockets, space),
        checks.len() == document.parts@.len(),
        forall|i: int| #![trigger checks[i]] 0 <= i < checks.len() ==> checks[i] is Ok,
    ensures
        document.parts_fault(checks) is None,
{
    let docs = document.parts@;
    let keys = graph.parts.rows.keys@;
    assert forall|i: int| 0 <= i < docs.len() implies #[trigger] anchored(docs, i) by {
        let id = keys[i];
        assert(graph.part_sound(id));
        let steps = choose|steps: nat| #[trigger] graph.stands_within(id, steps);
        lemma_anchored(graph, document, sockets, space, i, steps);
        assert(anchored_within(docs, i, steps));
    }
    assert forall|i: int| 0 <= i < docs.len() implies #[trigger] part_row_fault(
        docs,
        checks,
        document.part_frames@,
        i,
    ) is None by {
        let id = keys[i];
        assert(checks[i] is Ok);
        graph.parts.rows.lemma_index(i);
        assert(graph.part_sound(id));
        assert(describes_part(graph.parts.rows.values@[i], graph.parent_row(id), docs[i]));
        if graph.parts.rows.values@[i].shape is Transmission {
            let parent = graph.transmission_parents@[id];
            assert(keys.contains(parent));
            lemma_row(keys, parent);
            let row = row_of(keys, parent) as int;
            assert(document.part_frames@[i] == row_of(
                graph.frames.frames.keys@,
                graph.frame_of_part(keys[i])->0,
            ));
            assert(document.part_frames@[row] == row_of(
                graph.frames.frames.keys@,
                graph.frame_of_part(keys[row])->0,
            ));
        }
    }
    lemma_parts_faultless(docs, checks, document.part_frames@, docs.len() as int);
}

/// A saved weld holds no transmission.
pub(crate) proof fn lemma_plain_weld(graph: &ConstructionGraph, count: int, at: int) -> (row: int)
    requires
        0 <= count,
        0 <= at < graph.plain_welds(count).len(),
    ensures
        0 <= row < count,
        !graph.holds_transmission(graph.welds.rows.keys@[row]),
        graph.plain_welds(count)[at] == weld_doc_of(
            graph.welds.rows.values@[row],
            graph.parts.rows.keys@,
            graph.shape_features.rows.keys@,
        ),
    decreases count,
{
    let shorter = graph.plain_welds(count - 1);
    if at < shorter.len() {
        lemma_plain_weld(graph, count - 1, at)
    } else {
        count - 1
    }
}

/// A weld that holds no transmission is saved.
proof fn lemma_weld_saved(graph: &ConstructionGraph, count: int, row: int) -> (at: int)
    requires
        0 <= row < count,
        !graph.holds_transmission(graph.welds.rows.keys@[row]),
    ensures
        0 <= at < graph.plain_welds(count).len(),
        graph.plain_welds(count)[at] == weld_doc_of(
            graph.welds.rows.values@[row],
            graph.parts.rows.keys@,
            graph.shape_features.rows.keys@,
        ),
    decreases count,
{
    if row == count - 1 {
        graph.plain_welds(count - 1).len() as int
    } else {
        lemma_weld_saved(graph, count - 1, row)
    }
}

/// A picked weld is one of the rows.
pub(crate) proof fn lemma_picked_weld(docs: Seq<WeldDoc>, patched: bool, count: int, at: int) -> (row: int)
    requires
        0 <= count,
        0 <= at < welds_where(docs, patched, count).len(),
    ensures
        0 <= row < count,
        welds_where(docs, patched, count)[at] == docs[row],
        weld_patched(docs[row]) == patched,
    decreases count,
{
    if at < welds_where(docs, patched, count - 1).len() {
        lemma_picked_weld(docs, patched, count - 1, at)
    } else {
        count - 1
    }
}

/// Every row is picked among those of its sort.
proof fn lemma_weld_picked(docs: Seq<WeldDoc>, patched: bool, count: int, row: int) -> (at: int)
    requires
        0 <= row < count,
        weld_patched(docs[row]) == patched,
    ensures
        0 <= at < welds_where(docs, patched, count).len(),
        welds_where(docs, patched, count)[at] == docs[row],
    decreases count,
{
    if row == count - 1 {
        welds_where(docs, patched, count - 1).len() as int
    } else {
        lemma_weld_picked(docs, patched, count - 1, row)
    }
}

/// A saved weld comes back over new handles.
pub(crate) proof fn lemma_weld(graph: &ConstructionGraph, names: Renaming, row: int)
    requires
        graph.saveable(),
        graph.connections_sound(),
        names.covers(),
        names.parts == graph.parts.rows.keys@,
        names.features == graph.shape_features.rows.keys@,
        0 <= row < graph.welds.rows.values@.len(),
    ensures
        ({
            let weld = graph.welds.rows.values@[row];
            let doc = weld_doc_of(weld, names.parts, names.features);
            &&& resolved_weld(doc, names.ids, feature_ids(names.features.len())) == Ok::<
                WeldSpec,
                CreationError,
            >(names.weld(weld))
            &&& !weld_patched(doc) ==> resolved_weld(
                doc,
                names.ids,
                Seq::<ShapeFeatureId>::empty(),
            ) == Ok::<WeldSpec, CreationError>(names.weld(weld))
        }),
{
    let weld = graph.welds.rows.values@[row];
    assert(graph.face_live(weld.first));
    assert(ground_untrimmed(weld.first));
    lemma_face(names, weld.first);
    lemma_face(names, weld.second);
}

/// Saved welds of either sort have no fault.
proof fn lemma_welds_load(graph: &ConstructionGraph, names: Renaming, patched: bool)
    requires
        graph.saveable(),
        graph.connections_sound(),
        names.covers(),
        names.parts == graph.parts.rows.keys@,
        names.features == graph.shape_features.rows.keys@,
    ensures
        ({
            let docs = graph.plain_welds(graph.welds.rows.keys@.len() as int);
            let features = if patched {
                feature_ids(names.features.len())
            } else {
                Seq::<ShapeFeatureId>::empty()
            };
            first_fault(
                weld_faults(
                    welds_where(docs, patched, docs.len() as int),
                    names.ids,
                    features,
                ),
            ) is None
        }),
{
    let docs = graph.plain_welds(graph.welds.rows.keys@.len() as int);
    let features = if patched {
        feature_ids(names.features.len())
    } else {
        Seq::<ShapeFeatureId>::empty()
    };
    let faults = weld_faults(
        welds_where(docs, patched, docs.len() as int),
        names.ids,
        features,
    );
    assert forall|i: int| #![trigger faults[i]] 0 <= i < faults.len() implies faults[i] is None by {
        let at = lemma_picked_weld(docs, patched, docs.len() as int, i);
        let row = lemma_plain_weld(graph, graph.welds.rows.keys@.len() as int, at);
        lemma_weld(graph, names, row);
    }
    lemma_no_fault(faults);
}

/// A saved joint comes back over new handles.
proof fn lemma_joint(graph: &ConstructionGraph, names: Renaming, space: CanonicalSpace, row: int)
    requires
        graph.saveable(),
        graph.connections_sound(),
        names.covers(),
        names.parts == graph.parts.rows.keys@,
        names.features == graph.shape_features.rows.keys@,
        0 <= row < graph.bearings.rows.values@.len(),
    ensures
        resolved_bearing(
            bearing_doc_of(graph.canonical_bearing(space, row), names.parts, names.features),
            names.ids,
            feature_ids(names.features.len()),
        ) == Ok::<BearingSpec, CreationError>(names.joint(graph.canonical_bearing(space, row))),
{
    let held = graph.bearings.rows.values@[row];
    assert(graph.face_live(held.source));
    assert(ground_untrimmed(held.source));
    lemma_face(names, held.source);
    if held.target is Some {
        lemma_face(names, held.target->0);
    }
}

/// The chains of a saved feature come back over new handles.
proof fn lemma_feature(graph: &ConstructionGraph, names: Renaming, row: int, k: int)
    requires
        graph.saveable(),
        graph.connections_sound(),
        names.covers(),
        names.parts == graph.parts.rows.keys@,
        names.regions == graph.regions.rows.keys@,
        names.features == graph.shape_features.rows.keys@,
        0 <= row < graph.shape_features.rows.values@.len(),
        0 <= k < graph.shape_features.rows.values@[row].targets@.len(),
    ensures
        ({
            let chain = graph.shape_features.rows.values@[row].targets@[k];
            resolved_chain(
                chain_doc_of(chain, names.parts, names.regions, names.features),
                names.ids,
                region_ids(names.regions.len()),
                feature_ids(row as nat),
            ) == Ok::<EdgeChainRef, CreationError>(names.chain(chain))
        }),
{
    let feature = graph.shape_features.rows.values@[row];
    assert(graph.feature_live(feature));
    assert(graph.feature_sound(row));
    let chain = feature.targets@[k];
    lemma_chain(names, chain, row as nat);
}

/// A saved region's row has no fault.
proof fn lemma_region(region: ShapeRegion, doc: super::doc::RegionDoc)
    requires
        region.wf(),
        describes_region(region, doc),
    ensures
        region_doc_fault(doc) is None,
        super::regions::cage_of_doc(doc) == region.cage(),
{
    let size = region.size_cells;
    lemma_planes_in_order(region.divisions_x@, size.x as int);
    lemma_planes_in_order(region.divisions_y@, size.y as int);
    lemma_planes_in_order(region.divisions_z@, size.z as int);
    lemma_vertices_stay(region, region.vertices@.len() as int);
}

/// Vertices of a valid region have no fault.
proof fn lemma_vertices_stay(region: ShapeRegion, count: int)
    requires
        region.wf(),
        count <= region.vertices@.len(),
    ensures
        region.cage().first_fault(region.vertices@, count) is None,
    decreases count,
{
    if count > 0 {
        lemma_vertices_stay(region, count - 1);
        assert(region.vertex_fault(region.vertices@[count - 1]) is None);
    }
}

/// Connections of a sound construction load.
proof fn lemma_connections_load(
    graph: &ConstructionGraph,
    document: &CreationDocument,
    sockets: Seq<BearingSocket>,
    space: CanonicalSpace,
    checks: Seq<JointCheck>,
)
    requires
        graph.sound(),
        document.captures(graph, sockets, space),
        checks.len() == document.bearings@.len(),
        forall|i: int| #![trigger checks[i]] 0 <= i < checks.len() ==> checks[i].passes(),
    ensures
        document.connections_fault(checks) is None,
{
    let names = renaming(graph, document);
    lemma_welds_load(graph, names, false);
    lemma_welds_load(graph, names, true);
    let rigid = rigid_faults(document.rigid_links@, names.ids);
    assert forall|i: int| #![trigger rigid[i]] 0 <= i < rigid.len() implies rigid[i] is None by {
        let link = graph.rigid_links.rows.values@[i];
        assert(document.rigid_links@[i].first == row_of(names.parts, link.first));
        assert(names.parts.contains(link.first) && names.parts.contains(link.second));
        lemma_row(names.parts, link.first);
        lemma_row(names.parts, link.second);
    }
    lemma_no_fault(rigid);
    let regions = region_faults(document.regions@);
    assert forall|i: int| #![trigger regions[i]] 0 <= i < regions.len() implies regions[i] is None by {
        graph.regions.rows.lemma_index(i);
        assert(graph.regions.rows@[graph.regions.rows.keys@[i]].wf());
        assert(describes_region(graph.regions.rows.values@[i], document.regions@[i]));
        lemma_region(graph.regions.rows.values@[i], document.regions@[i]);
    }
    lemma_no_fault(regions);
    let features = feature_faults(
        document.shape_features@,
        names.ids,
        region_ids(document.regions@.len()),
    );
    assert forall|i: int| #![trigger features[i]] 0 <= i < features.len() implies features[i]
        is None by {
        assert(describes_feature(
            graph.shape_features.rows.values@[i],
            names.parts,
            names.regions,
            names.features,
            document.shape_features@[i],
        ));
        let chains = chain_faults(
            document.shape_features@[i].targets@,
            names.ids,
            region_ids(document.regions@.len()),
            feature_ids(i as nat),
        );
        assert forall|k: int| #![trigger chains[k]] 0 <= k < chains.len() implies chains[k]
            is None by {
            lemma_feature(graph, names, i, k);
        }
        lemma_no_fault(chains);
    }
    lemma_no_fault(features);
    let bearings = bearing_faults(
        document.bearings@,
        checks,
        names.ids,
        feature_ids(document.shape_features@.len()),
    );
    assert forall|i: int| #![trigger bearings[i]] 0 <= i < bearings.len() implies bearings[i]
        is None by {
        assert(document.bearings@[i] == bearing_doc_of(
            graph.canonical_bearing(space, i),
            names.parts,
            names.features,
        ));
        assert(checks[i].passes());
        lemma_joint(graph, names, space, i);
    }
    lemma_no_fault(bearings);
    let mounts = bearing_mount_faults(document.bearings@, checks);
    assert forall|i: int| #![trigger mounts[i]] 0 <= i < mounts.len() implies mounts[i] is None by {
        assert(document.bearings@[i] == bearing_doc_of(
            graph.canonical_bearing(space, i),
            names.parts,
            names.features,
        ));
        assert(checks[i].passes());
        assert(graph.bearings.rows.values@[i].source.owner is Part);
    }
    lemma_no_fault(mounts);
}

/// The new handles of a sound construction's parts are distinct.
pub(crate) proof fn lemma_new_handles(
    graph: &ConstructionGraph,
    document: &CreationDocument,
    sockets: Seq<BearingSocket>,
    space: CanonicalSpace,
)
    requires
        graph.sound(),
        document.captures(graph, sockets, space),
    ensures
        part_ids(document.parts@).no_duplicates(),
{
    let docs = document.parts@;
    let order = replay_order(docs);
    let ids = part_ids(docs);
    let checks = Seq::new(docs.len(), |i: int| Ok::<(), PartError>(()));
    lemma_parts_load(graph, document, sockets, space, checks);
    assert forall|i: int| #![trigger docs[i]]
        0 <= i < docs.len() && parent_in(docs[i]) is Some implies parent_in(docs[i])->0
        < docs.len() by {
        lemma_faultless_part(docs, checks, document.part_frames@, docs.len() as int, i);
    }
    standing_parts_come_back_once(docs);
    assert forall|row: u32| #[trigger] order.contains(row) <==> row < docs.len() by {
        if row < docs.len() {
            lemma_all_anchored(docs, docs.len() as int, row as int);
        }
    }
    lemma_full_order(order, docs.len() as int);
    assert forall|i: int, j: int| 0 <= i < ids.len() && 0 <= j < ids.len() && i != j implies ids[i]
        != ids[j] by {
        assert(order.contains(i as u32) && order.contains(j as u32));
        let a = order.index_of(i as u32);
        let b = order.index_of(j as u32);
        assert(order[a] == i as u32 && order[b] == j as u32);
    }
}

/// New handles tell parts apart.
proof fn lemma_part_apart(names: Renaming, a: PartId, b: PartId)
    requires
        names.covers(),
        names.ids.no_duplicates(),
        names.parts.contains(a),
        names.parts.contains(b),
        names.part(a) == names.part(b),
    ensures
        a == b,
{
    lemma_row(names.parts, a);
    lemma_row(names.parts, b);
}

/// A lane of saved rows is configured by its own row alone.
pub(crate) proof fn lemma_lane_row(
    graph: &ConstructionGraph,
    document: &CreationDocument,
    sockets: Seq<BearingSocket>,
    space: CanonicalSpace,
    row: int,
    count: int,
)
    requires
        graph.saveable(),
        document.captures(graph, sockets, space),
        part_ids(document.parts@).no_duplicates(),
        0 <= row < graph.gearboxes.keys@.len(),
        0 <= count <= graph.gearboxes.keys@.len(),
    ensures
        lane_of(document.gearbox_configs@[row], part_ids(document.parts@)) == renaming(
            graph,
            document,
        ).lane(graph.gearboxes.keys@[row]),
        last_lane_row(
            document.gearbox_configs@,
            part_ids(document.parts@),
            lane_of(document.gearbox_configs@[row], part_ids(document.parts@)),
            count,
        ) == (if row < count {
            row
        } else {
            -1
        }),
    decreases count,
{
    let docs = document.gearbox_configs@;
    let names = renaming(graph, document);
    let lanes = graph.gearboxes.keys@;
    assert(describes_lane(lanes[row], graph.gearboxes.values@[row], names.parts, docs[row]));
    assert(names.parts.contains(lanes[row].controller));
    lemma_row(names.parts, lanes[row].controller);
    if count > 0 {
        lemma_lane_row(graph, document, sockets, space, row, count - 1);
        let last = count - 1;
        assert(describes_lane(lanes[last], graph.gearboxes.values@[last], names.parts, docs[last]));
        assert(names.parts.contains(lanes[last].controller));
        lemma_row(names.parts, lanes[last].controller);
        if lane_of(docs[last], names.ids) == lane_of(docs[row], names.ids) {
            lemma_part_apart(names, lanes[last].controller, lanes[row].controller);
            lemma_ascending_distinct(lanes, last, row);
        }
    }
}

/// Controls of a sound construction load.
proof fn lemma_controls_load(
    graph: &ConstructionGraph,
    document: &CreationDocument,
    sockets: Seq<BearingSocket>,
    space: CanonicalSpace,
    checks: Seq<RingCheck>,
)
    requires
        graph.sound(),
        document.captures(graph, sockets, space),
        forall|i: int|
            #![trigger sockets[i]]
            0 <= i < sockets.len() ==> graph.face_live(sockets[i].source)
                && sockets[i].source.owner is Part,
        checks.len() == document.sockets@.len(),
        forall|i: int|
            #![trigger checks[i]]
            0 <= i < checks.len() ==> checks[i].rail is Ok && checks[i].joint.passes(),
    ensures
        document.controls_fault(checks) is None,
{
    let names = renaming(graph, document);
    let wires = wire_faults(document.drive_links@, names.ids, bearing_ids(document.bearings@.len()));
    assert forall|i: int| #![trigger wires[i]] 0 <= i < wires.len() implies wires[i] is None by {
        let link = graph.drive_links.rows.values@[i];
        let doc = document.drive_links@[i];
        assert(describes_link(link, names.parts, names.bearings, doc));
        assert(names.parts.contains(link.controller) && names.bearings.contains(link.bearing));
        lemma_row(names.parts, link.controller);
        lemma_row(names.bearings, link.bearing);
        limits_survive_saving(link.limits);
        programs_survive_saving(link.program, doc.program);
    }
    lemma_no_fault(wires);
    let inputs = input_link_faults(document.input_seat_links@, names.ids);
    assert forall|i: int| #![trigger inputs[i]] 0 <= i < inputs.len() implies inputs[i] is None by {
        let link = graph.input_seat_links.rows.values@[i];
        assert(document.input_seat_links@[i].input == row_of(names.parts, link.input));
        assert(names.parts.contains(link.input) && names.parts.contains(link.seat));
        lemma_row(names.parts, link.input);
        lemma_row(names.parts, link.seat);
    }
    lemma_no_fault(inputs);
    let seats = seat_link_faults(document.seat_controller_links@, names.ids);
    assert forall|i: int| #![trigger seats[i]] 0 <= i < seats.len() implies seats[i] is None by {
        let link = graph.seat_controller_links.rows.values@[i];
        assert(document.seat_controller_links@[i].seat == row_of(names.parts, link.seat));
        assert(names.parts.contains(link.seat) && names.parts.contains(link.controller));
        lemma_row(names.parts, link.seat);
        lemma_row(names.parts, link.controller);
    }
    lemma_no_fault(seats);
    lemma_new_handles(graph, document, sockets, space);
    let lanes = lane_faults(document.gearbox_configs@, names.ids);
    assert forall|i: int| #![trigger lanes[i]] 0 <= i < lanes.len() implies lanes[i] is None by {
        let lane = graph.gearboxes.keys@[i];
        let config = graph.gearboxes.values@[i];
        let doc = document.gearbox_configs@[i];
        assert(describes_lane(lane, config, names.parts, doc));
        assert(names.parts.contains(lane.controller));
        lemma_row(names.parts, lane.controller);
        lemma_lane_row(graph, document, sockets, space, i, i);
        assert(config.wf());
    }
    lemma_no_fault(lanes);
    let rings = socket_faults(
        document.sockets@,
        checks,
        names.ids,
        feature_ids(document.shape_features@.len()),
    );
    assert forall|i: int| #![trigger rings[i]] 0 <= i < rings.len() implies rings[i] is None by {
        assert(document.sockets@[i] == socket_doc_of(
            graph.canonical_socket(space, sockets, i),
            names.parts,
            names.features,
        ));
        assert(checks[i].joint.passes());
        lemma_face(names, sockets[i].source);
    }
    lemma_no_fault(rings);
}

/// Memberships of saved rows name saved grids.
proof fn lemma_header_loads(
    graph: &ConstructionGraph,
    document: &CreationDocument,
    sockets: Seq<BearingSocket>,
    space: CanonicalSpace,
    frames: Seq<Result<ConstructionFrame, FrameError>>,
)
    requires
        graph.saveable(),
        document.captures(graph, sockets, space),
        frames.len() == document.frames@.len(),
        forall|i: int| #![trigger frames[i]] 0 <= i < frames.len() ==> frames[i] is Ok,
    ensures
        document.header_fault(frames) is None,
{
    let grids = graph.frames.frames.keys@;
    let faults = frame_faults(frames);
    assert forall|i: int| #![trigger faults[i]] 0 <= i < faults.len() implies faults[i] is None by {
        assert(frames[i] is Ok);
    }
    lemma_no_fault(faults);
    let parts = membership_faults(document.part_frames@, frames.len());
    assert forall|i: int| #![trigger parts[i]] 0 <= i < parts.len() implies parts[i] is None by {
        let id = graph.parts.rows.keys@[i];
        graph.parts.rows.lemma_index(i);
        let grid = graph.frame_of_part(id)->0;
        assert(document.part_frames@[i] == row_of(grids, grid));
        assert(graph.frames.frames@.dom().contains(grid));
        lemma_row(grids, grid);
    }
    lemma_no_fault(parts);
    let regions = membership_faults(document.region_frames@, frames.len());
    assert forall|i: int| #![trigger regions[i]] 0 <= i < regions.len() implies regions[i] is None by {
        let id = graph.regions.rows.keys@[i];
        assert(graph.frame_of_region(id) is Some);
        let grid = graph.frame_of_region(id)->0;
        assert(document.region_frames@[i] == row_of(grids, grid));
        assert(graph.frames.frames@.dom().contains(grid));
        lemma_row(grids, grid);
    }
    lemma_no_fault(regions);
}

/// A saved construction loads: unless measuring a row refuses it, nothing that
/// saving writes is refused.
pub proof fn saved_creations_load(
    graph: &ConstructionGraph,
    document: &CreationDocument,
    sockets: Seq<BearingSocket>,
    space: CanonicalSpace,
    checks: &LoadChecks,
)
    requires
        graph.sound(),
        document.captures(graph, sockets, space),
        forall|i: int|
            #![trigger sockets[i]]
            0 <= i < sockets.len() ==> graph.face_live(sockets[i].source)
                && sockets[i].source.owner is Part,
        checks.covers(document),
        checks.passed(),
    ensures
        document.load_fault(checks) is None,
{
    lemma_header_loads(graph, document, sockets, space, checks.frames@);
    lemma_parts_load(graph, document, sockets, space, checks.parts@);
    lemma_connections_load(graph, document, sockets, space, checks.joints@);
    lemma_controls_load(graph, document, sockets, space, checks.rings@);
}

/// Every saved part comes back as it was, under a handle of its own, and
/// transmissions extend what they extended.
pub proof fn saved_parts_come_back(
    graph: &ConstructionGraph,
    document: &CreationDocument,
    sockets: Seq<BearingSocket>,
    space: CanonicalSpace,
    loaded: &ConstructionGraph,
)
    requires
        graph.saveable(),
        document.captures(graph, sockets, space),
        document.parts_rebuilt(loaded),
    ensures
        loaded.parts.rows.keys@.len() == graph.parts.rows.keys@.len(),
        forall|part: PartId| #[trigger]
            graph.has_part(part) ==> {
                let again = renaming(graph, document).part(part);
                &&& loaded.has_part(again)
                &&& loaded.parts.rows@[again].agrees(&graph.parts.rows@[part])
                &&& graph.parts.rows@[part].shape is Transmission
                    ==> loaded.transmission_parents@.dom().contains(again)
                    && loaded.transmission_parents@[again] == renaming(graph, document).part(
                    graph.transmission_parents@[part],
                )
            },
        forall|a: PartId, b: PartId|
            #![trigger renaming(graph, document).part(a), renaming(graph, document).part(b)]
            graph.has_part(a) && graph.has_part(b) && renaming(graph, document).part(a)
                == renaming(graph, document).part(b) ==> a == b,
{
    let names = renaming(graph, document);
    let keys = graph.parts.rows.keys@;
    assert forall|part: PartId| #[trigger] graph.has_part(part) implies {
        let again = names.part(part);
        &&& loaded.has_part(again)
        &&& loaded.parts.rows@[again].agrees(&graph.parts.rows@[part])
        &&& graph.parts.rows@[part].shape is Transmission
            ==> loaded.transmission_parents@.dom().contains(again)
            && loaded.transmission_parents@[again] == names.part(graph.transmission_parents@[part])
    } by {
        lemma_row(keys, part);
        let row = row_of(keys, part) as int;
        graph.parts.rows.lemma_index(row);
        let again = names.ids[row];
        assert(loaded.has_part(again));
        let spec = graph.parts.rows.values@[row];
        assert(describes_part(spec, graph.parent_row(part), document.parts@[row]));
        parts_survive_saving(
            spec,
            graph.parent_row(part),
            document.parts@[row],
            loaded.parts.rows@[again],
        );
        if spec.shape is Transmission {
            lemma_row(keys, graph.transmission_parents@[part]);
        }
    }
    assert forall|a: PartId, b: PartId|
        #![trigger names.part(a), names.part(b)]
        graph.has_part(a) && graph.has_part(b) && names.part(a) == names.part(b) implies a == b by {
        lemma_part_apart(names, a, b);
    }
}

/// Every saved rigid link, joint, region and feature comes back in its row, as
/// it was, over new handles.
pub proof fn saved_connections_come_back(
    graph: &ConstructionGraph,
    document: &CreationDocument,
    sockets: Seq<BearingSocket>,
    space: CanonicalSpace,
    loaded: &ConstructionGraph,
)
    requires
        graph.sound(),
        document.captures(graph, sockets, space),
        document.connections_rebuilt(loaded),
    ensures
        loaded.rigid_links.rows.values@.len() == graph.rigid_links.rows.values@.len(),
        forall|i: int|
            #![trigger loaded.rigid_links.rows.values@[i]]
            0 <= i < loaded.rigid_links.rows.values@.len() ==> {
                let link = graph.rigid_links.rows.values@[i];
                &&& loaded.rigid_links.rows.values@[i].first == renaming(graph, document).part(
                    link.first,
                )
                &&& loaded.rigid_links.rows.values@[i].second == renaming(graph, document).part(
                    link.second,
                )
            },
        loaded.bearings.rows.values@.len() == graph.bearings.rows.values@.len(),
        forall|i: int|
            #![trigger loaded.bearings.rows.values@[i]]
            0 <= i < loaded.bearings.rows.values@.len() ==> loaded.bearings.rows.values@[i]
                == renaming(graph, document).joint(graph.canonical_bearing(space, i)),
        loaded.regions.rows.values@.len() == graph.regions.rows.values@.len(),
        forall|i: int|
            #![trigger loaded.regions.rows.values@[i]]
            0 <= i < loaded.regions.rows.values@.len() ==> loaded.regions.rows.values@[i].agrees(
                &graph.regions.rows.values@[i],
            ),
        loaded.shape_features.rows.values@.len() == graph.shape_features.rows.values@.len(),
        forall|i: int|
            #![trigger loaded.shape_features.rows.values@[i]]
            0 <= i < loaded.shape_features.rows.values@.len() ==> {
                let feature = graph.shape_features.rows.values@[i];
                let again = loaded.shape_features.rows.values@[i];
                &&& again.targets@ == feature.targets@.map_values(
                    |chain: EdgeChainRef| renaming(graph, document).chain(chain),
                )
                &&& again.treatment == feature.treatment
                &&& again.amount_ticks == feature.amount_ticks
            },
{
    let names = renaming(graph, document);
    assert forall|i: int| #![trigger loaded.rigid_links.rows.values@[i]]
        0 <= i < loaded.rigid_links.rows.values@.len() implies {
        let link = graph.rigid_links.rows.values@[i];
        &&& loaded.rigid_links.rows.values@[i].first == names.part(link.first)
        &&& loaded.rigid_links.rows.values@[i].second == names.part(link.second)
    } by {
        let link = graph.rigid_links.rows.values@[i];
        assert(document.rigid_links@[i].first == row_of(names.parts, link.first));
        assert(names.parts.contains(link.first) && names.parts.contains(link.second));
        lemma_row(names.parts, link.first);
        lemma_row(names.parts, link.second);
    }
    assert forall|i: int| #![trigger loaded.bearings.rows.values@[i]]
        0 <= i < loaded.bearings.rows.values@.len() implies loaded.bearings.rows.values@[i]
        == names.joint(graph.canonical_bearing(space, i)) by {
        assert(document.bearings@[i] == bearing_doc_of(
            graph.canonical_bearing(space, i),
            names.parts,
            names.features,
        ));
        lemma_joint(graph, names, space, i);
    }
    assert forall|i: int| #![trigger loaded.regions.rows.values@[i]]
        0 <= i < loaded.regions.rows.values@.len() implies loaded.regions.rows.values@[i].agrees(
        &graph.regions.rows.values@[i],
    ) by {
        let region = graph.regions.rows.values@[i];
        graph.regions.rows.lemma_index(i);
        assert(graph.regions.rows@[graph.regions.rows.keys@[i]].wf());
        assert(describes_region(region, document.regions@[i]));
        assert(region_of_doc(document.regions@[i], loaded.regions.rows.values@[i]));
        lemma_region(region, document.regions@[i]);
        let cage = loaded.regions.rows.values@[i].cage();
        assert(cage == region.cage());
        assert(cage.x == region.divisions_x@);
        assert(cage.size == region.size_cells);
    }
    assert forall|i: int| #![trigger loaded.shape_features.rows.values@[i]]
        0 <= i < loaded.shape_features.rows.values@.len() implies {
        let feature = graph.shape_features.rows.values@[i];
        let again = loaded.shape_features.rows.values@[i];
        &&& again.targets@ == feature.targets@.map_values(
            |chain: EdgeChainRef| names.chain(chain),
        )
        &&& again.treatment == feature.treatment
        &&& again.amount_ticks == feature.amount_ticks
    } by {
        let feature = graph.shape_features.rows.values@[i];
        let again = loaded.shape_features.rows.values@[i];
        assert(feature_of_doc(
            document.shape_features@,
            i,
            names.ids,
            region_ids(document.regions@.len()),
            again,
        ));
        assert(describes_feature(
            feature,
            names.parts,
            names.regions,
            names.features,
            document.shape_features@[i],
        ));
        assert forall|k: int| 0 <= k < feature.targets@.len() implies again.targets@[k]
            == names.chain(feature.targets@[k]) by {
            lemma_feature(graph, names, i, k);
        }
        assert(again.targets@ =~= feature.targets@.map_values(
            |chain: EdgeChainRef| names.chain(chain),
        ));
    }
}

/// Every saved weld that holds no transmission comes back over new handles.
pub proof fn saved_welds_come_back(
    graph: &ConstructionGraph,
    document: &CreationDocument,
    sockets: Seq<BearingSocket>,
    space: CanonicalSpace,
    loaded: &ConstructionGraph,
    row: int,
)
    requires
        graph.sound(),
        document.captures(graph, sockets, space),
        document.connections_rebuilt(loaded),
        0 <= row < graph.welds.rows.values@.len(),
        !graph.holds_transmission(graph.welds.rows.keys@[row]),
    ensures
        loaded.welds.rows.values@.contains(
            renaming(graph, document).weld(graph.welds.rows.values@[row]),
        ),
{
    let names = renaming(graph, document);
    let docs = document.welds@;
    let weld = graph.welds.rows.values@[row];
    let at = lemma_weld_saved(graph, graph.welds.rows.keys@.len() as int, row);
    let patched = weld_patched(docs[at]);
    let place = lemma_weld_picked(docs, patched, docs.len() as int, at);
    lemma_weld(graph, names, row);
    let attached = super::spawn::attach_welds(document.parts@, document.parts@.len() as int);
    let plain = welds_of(
        welds_where(docs, false, docs.len() as int),
        names.ids,
        Seq::<ShapeFeatureId>::empty(),
    );
    let trimmed = welds_of(
        welds_where(docs, true, docs.len() as int),
        names.ids,
        feature_ids(document.shape_features@.len()),
    );
    let all = attached + plain + trimmed;
    if patched {
        assert(trimmed[place] == names.weld(weld));
        assert(all[attached.len() + plain.len() + place] == names.weld(weld));
    } else {
        assert(plain[place] == names.weld(weld));
        assert(all[attached.len() + place] == names.weld(weld));
    }
}

/// Every saved wire, logical link and gear lane comes back as it was, over new handles.
pub proof fn saved_controls_come_back(
    graph: &ConstructionGraph,
    document: &CreationDocument,
    sockets: Seq<BearingSocket>,
    space: CanonicalSpace,
    loaded: &ConstructionGraph,
)
    requires
        graph.sound(),
        document.captures(graph, sockets, space),
        document.controls_rebuilt(loaded),
    ensures
        loaded.drive_links.rows.values@.len() == graph.drive_links.rows.values@.len(),
        forall|i: int|
            #![trigger loaded.drive_links.rows.values@[i]]
            0 <= i < loaded.drive_links.rows.values@.len() ==> {
                let wire = graph.drive_links.rows.values@[i];
                let again = loaded.drive_links.rows.values@[i];
                &&& again.linear_limits == wire.linear_limits
                &&& again.controller == renaming(graph, document).part(wire.controller)
                &&& again.bearing == renaming(graph, document).bearing(wire.bearing)
                &&& again.reversed == wire.reversed
                &&& again.actuator == wire.actuator
                &&& again.limits == wire.limits
                &&& again.program@ == wire.program@
                &&& again.program.looping() == wire.program.looping()
                &&& again.name@ == wire.name@
            },
        loaded.input_seat_links.rows.values@.len() == graph.input_seat_links.rows.values@.len(),
        forall|i: int|
            #![trigger loaded.input_seat_links.rows.values@[i]]
            0 <= i < loaded.input_seat_links.rows.values@.len() ==> {
                let link = graph.input_seat_links.rows.values@[i];
                let again = loaded.input_seat_links.rows.values@[i];
                &&& again.input == renaming(graph, document).part(link.input)
                &&& again.seat == renaming(graph, document).part(link.seat)
            },
        loaded.seat_controller_links.rows.values@.len()
            == graph.seat_controller_links.rows.values@.len(),
        forall|i: int|
            #![trigger loaded.seat_controller_links.rows.values@[i]]
            0 <= i < loaded.seat_controller_links.rows.values@.len() ==> {
                let link = graph.seat_controller_links.rows.values@[i];
                let again = loaded.seat_controller_links.rows.values@[i];
                &&& again.seat == renaming(graph, document).part(link.seat)
                &&& again.controller == renaming(graph, document).part(link.controller)
            },
        forall|i: int|
            #![trigger graph.gearboxes.keys@[i]]
            0 <= i < graph.gearboxes.keys@.len() ==> {
                let lane = renaming(graph, document).lane(graph.gearboxes.keys@[i]);
                let config = graph.gearboxes.values@[i];
                &&& loaded.gearboxes@.dom().contains(lane)
                &&& loaded.gearboxes@[lane].mode == config.mode
                &&& loaded.gearboxes@[lane].ratios@ == config.ratios@
                &&& loaded.gearboxes@[lane].reverse_gears == config.reverse_gears
                &&& loaded.gearboxes@[lane].gear_up == config.gear_up
                &&& loaded.gearboxes@[lane].gear_down == config.gear_down
            },
{
    let names = renaming(graph, document);
    assert forall|i: int| #![trigger loaded.drive_links.rows.values@[i]]
        0 <= i < loaded.drive_links.rows.values@.len() implies {
        let wire = graph.drive_links.rows.values@[i];
        let again = loaded.drive_links.rows.values@[i];
        &&& again.linear_limits == wire.linear_limits
        &&& again.controller == names.part(wire.controller)
        &&& again.bearing == names.bearing(wire.bearing)
        &&& again.reversed == wire.reversed
        &&& again.actuator == wire.actuator
        &&& again.limits == wire.limits
        &&& again.program@ == wire.program@
        &&& again.program.looping() == wire.program.looping()
        &&& again.name@ == wire.name@
    } by {
        let wire = graph.drive_links.rows.values@[i];
        let again = loaded.drive_links.rows.values@[i];
        let doc = document.drive_links@[i];
        assert(describes_link(wire, names.parts, names.bearings, doc));
        assert(wire_of_doc(doc, names.ids, bearing_ids(document.bearings@.len()), again));
        assert(names.parts.contains(wire.controller) && names.bearings.contains(wire.bearing));
        lemma_row(names.parts, wire.controller);
        lemma_row(names.bearings, wire.bearing);
        limits_survive_saving(wire.limits);
        programs_survive_saving(wire.program, doc.program);
    }
    assert forall|i: int| #![trigger loaded.input_seat_links.rows.values@[i]]
        0 <= i < loaded.input_seat_links.rows.values@.len() implies {
        let link = graph.input_seat_links.rows.values@[i];
        let again = loaded.input_seat_links.rows.values@[i];
        &&& again.input == names.part(link.input)
        &&& again.seat == names.part(link.seat)
    } by {
        let link = graph.input_seat_links.rows.values@[i];
        assert(document.input_seat_links@[i].input == row_of(names.parts, link.input));
        assert(names.parts.contains(link.input) && names.parts.contains(link.seat));
        lemma_row(names.parts, link.input);
        lemma_row(names.parts, link.seat);
    }
    assert forall|i: int| #![trigger loaded.seat_controller_links.rows.values@[i]]
        0 <= i < loaded.seat_controller_links.rows.values@.len() implies {
        let link = graph.seat_controller_links.rows.values@[i];
        let again = loaded.seat_controller_links.rows.values@[i];
        &&& again.seat == names.part(link.seat)
        &&& again.controller == names.part(link.controller)
    } by {
        let link = graph.seat_controller_links.rows.values@[i];
        assert(document.seat_controller_links@[i].seat == row_of(names.parts, link.seat));
        assert(names.parts.contains(link.seat) && names.parts.contains(link.controller));
        lemma_row(names.parts, link.seat);
        lemma_row(names.parts, link.controller);
    }
    lemma_new_handles(graph, document, sockets, space);
    assert forall|i: int| #![trigger graph.gearboxes.keys@[i]]
        0 <= i < graph.gearboxes.keys@.len() implies {
        let lane = names.lane(graph.gearboxes.keys@[i]);
        let config = graph.gearboxes.values@[i];
        &&& loaded.gearboxes@.dom().contains(lane)
        &&& loaded.gearboxes@[lane].mode == config.mode
        &&& loaded.gearboxes@[lane].ratios@ == config.ratios@
        &&& loaded.gearboxes@[lane].reverse_gears == config.reverse_gears
        &&& loaded.gearboxes@[lane].gear_up == config.gear_up
        &&& loaded.gearboxes@[lane].gear_down == config.gear_down
    } by {
        lemma_lane_row(graph, document, sockets, space, i, graph.gearboxes.keys@.len() as int);
        assert(describes_lane(
            graph.gearboxes.keys@[i],
            graph.gearboxes.values@[i],
            names.parts,
            document.gearbox_configs@[i],
        ));
        let lane = names.lane(graph.gearboxes.keys@[i]);
        assert(loaded.gearboxes@.dom().contains(lane));
        let config = graph.gearboxes.values@[i];
    }
}

/// Every saved part comes back on the grid that it was saved on.
pub proof fn saved_grids_come_back(
    graph: &ConstructionGraph,
    document: &CreationDocument,
    sockets: Seq<BearingSocket>,
    space: CanonicalSpace,
    frames: Seq<Result<ConstructionFrame, FrameError>>,
    loaded: &ConstructionGraph,
    part: PartId,
)
    requires
        graph.saveable(),
        document.captures(graph, sockets, space),
        frames.len() == document.frames@.len(),
        loaded.wf(),
        document.parts_rebuilt(loaded),
        document.frames_rebuilt(valid_frames(frames), loaded),
        graph.has_part(part),
    ensures
        ({
            let row = row_of(graph.frames.frames.keys@, graph.frame_of_part(part)->0) as int;
            let again = loaded.transform_of(
                loaded.frame_of_part(renaming(graph, document).part(part)),
            );
            &&& again is Some
            &&& again->0 == valid_frames(frames)[row] || (again->0
                == ConstructionFrame::identity() && valid_frames(frames)[row].same_value(
                ConstructionFrame::identity(),
            ))
        }),
{
    let names = renaming(graph, document);
    let grids = graph.frames.frames.keys@;
    let grid = graph.frame_of_part(part)->0;
    let valid = valid_frames(frames);
    assert(graph.frames.frames@.dom().contains(grid));
    lemma_row(grids, grid);
    let at = row_of(grids, grid) as int;
    lemma_row(names.parts, part);
    let row = row_of(names.parts, part) as int;
    assert(document.part_frames@[row] == row_of(grids, graph.frame_of_part(names.parts[row])->0));
    let again = names.ids[row];
    assert(loaded.has_part(again));
    assert(names.ids.contains(again));
    let found = names.ids.index_of(again);
    assert(names.ids[found] == again);
    assert(found == row);
    let members = named_grids(document.part_frames@, frame_ids(valid));
    assert(members[row] == frame_ids(valid)[at]);
    assert(loaded.frames.members@[again] == frame_ids(valid)[at]);
    let id = frame_ids(valid)[at];
    let place = id.0 as int;
    assert(loaded.frames.frames.keys@[place] == id);
    loaded.frames.frames.lemma_index(place);
    assert(loaded.frames.frames@[id] == frames_back(valid)[place]);
}

/// Every saved ring comes back over new handles.
pub proof fn saved_rings_come_back(
    graph: &ConstructionGraph,
    document: &CreationDocument,
    sockets: Seq<BearingSocket>,
    space: CanonicalSpace,
    frames: Seq<Result<ConstructionFrame, FrameError>>,
    owners: Seq<Option<u32>>,
    loaded: LoadedCreation,
)
    requires
        graph.saveable(),
        document.captures(graph, sockets, space),
        document.rebuilt(frames, owners, loaded),
        forall|i: int|
            #![trigger sockets[i]]
            0 <= i < sockets.len() ==> graph.face_live(sockets[i].source) && ground_untrimmed(
                sockets[i].source,
            ),
    ensures
        loaded.sockets@.len() == sockets.len(),
        forall|i: int|
            #![trigger loaded.sockets@[i]]
            0 <= i < sockets.len() ==> loaded.sockets@[i] == renaming(graph, document).socket(
                graph.canonical_socket(space, sockets, i),
            ),
{
    let names = renaming(graph, document);
    assert forall|i: int| #![trigger loaded.sockets@[i]] 0 <= i < sockets.len() implies loaded.sockets@[i]
        == names.socket(graph.canonical_socket(space, sockets, i)) by {
        assert(document.sockets@[i] == socket_doc_of(
            graph.canonical_socket(space, sockets, i),
            names.parts,
            names.features,
        ));
        lemma_face(names, sockets[i].source);
    }
}

} // verus!
