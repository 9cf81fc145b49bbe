//! Saving what was loaded gives the same document.
//!
//! Parts that extend nothing come back before those that extend another, welds
//! of plain faces before welds of trimmed ones, and the default grid before all
//! others. A document whose rows stand in that order is written again as it was.

use vstd::prelude::*;

use super::connect::{feature_ids, weld_patched, welds_of, welds_where};
use super::doc::{
    pose_of, ConstructionFrameDoc, CreationDocument, DriveLinkDoc, GearboxConfigDoc, PartDoc,
    RegionDoc, ShapeFeatureDoc, WeldDoc,
};
use super::lanes::{lane_of, last_lane_row};
use super::load::{
    frame_ids, frames_back, named_grids, starts_default, valid_frames, LoadChecks, LoadedCreation,
};
use super::loadable::loadable_constructions_are_sound;
use super::replay::{attach_order, first_extensions, plain_rows, replay_order};
use super::rows::{
    chain_doc_of, chain_listed, describes_part, face_doc_of, face_listed, key_doc_of, key_listed,
    layer_docs_in, parent_in, pose_doc_in, row_of, shape_of_doc,
};
use super::snapshot::{
    bearing_doc_of, describes_feature, describes_lane, describes_link, describes_region,
    socket_doc_of, weld_doc_of, CanonicalSpace,
};
use super::spawn::{attach_welds, part_ids, plain_count};
use super::survival::{
    lemma_lane_row, lemma_new_handles, lemma_picked_weld, lemma_plain_weld, lemma_row, lemma_weld,
    renaming, saved_connections_come_back, saved_controls_come_back, saved_parts_come_back,
    saved_rings_come_back, Renaming,
};
use crate::arena::{Arena, Handle};
use crate::frame::{ConstructionFrame, ConstructionFrameId, FrameError};
use crate::graph::{ConstructionGraph, GearLane};
use crate::ids::{BearingId, PartId, RegionId, ShapeFeatureId};
use crate::ordered::{ascending, ascending_sequences_agree, Ranked};
use crate::parts::{BearingSocket, EdgeChainRef, FaceRef, TopologyKey};

verus! {

/// Whether two part rows hold the same.
pub open spec fn part_docs_agree(a: PartDoc, b: PartDoc) -> bool {
    &&& shape_of_doc(a) == shape_of_doc(b)
    &&& pose_of(pose_doc_in(a)) == pose_of(pose_doc_in(b))
    &&& layer_docs_in(a) == layer_docs_in(b)
    &&& parent_in(a) == parent_in(b)
}

/// Whether two region rows hold the same.
pub open spec fn region_docs_agree(a: RegionDoc, b: RegionDoc) -> bool {
    &&& a.origin_steps@ == b.origin_steps@
    &&& a.size_cells@ == b.size_cells@
    &&& a.material == b.material
    &&& a.appearance == b.appearance
    &&& a.divisions_x@ == b.divisions_x@
    &&& a.divisions_y@ == b.divisions_y@
    &&& a.divisions_z@ == b.divisions_z@
    &&& a.vertices@ == b.vertices@
}

/// Whether two feature rows hold the same.
pub open spec fn feature_docs_agree(a: ShapeFeatureDoc, b: ShapeFeatureDoc) -> bool {
    a.targets@ == b.targets@ && a.treatment == b.treatment && a.amount_ticks == b.amount_ticks
}

/// Whether two wire rows hold the same.
pub open spec fn link_docs_agree(a: DriveLinkDoc, b: DriveLinkDoc) -> bool {
    &&& a.linear_limits == b.linear_limits
    &&& a.controller == b.controller
    &&& a.bearing == b.bearing
    &&& a.reversed == b.reversed
    &&& a.actuator == b.actuator
    &&& a.limits == b.limits
    &&& a.program.loops == b.program.loops
    &&& a.program.states@ == b.program.states@
    &&& a.name@ == b.name@
}

/// Whether two lane rows hold the same.
pub open spec fn lane_docs_agree(a: GearboxConfigDoc, b: GearboxConfigDoc) -> bool {
    &&& a.controller == b.controller
    &&& a.kind == b.kind
    &&& a.mode == b.mode
    &&& a.ratios@ == b.ratios@
    &&& a.reverse_gears == b.reverse_gears
    &&& a.gear_up == b.gear_up
    &&& a.gear_down == b.gear_down
}

impl CreationDocument {
    /// Whether two documents hold the same rows.
    pub open spec fn agrees(&self, other: &Self) -> bool {
        self.agrees_beside_grids(other) && self.frames@ == other.frames@
    }

    /// Whether two documents hold the same rows, apart from the transforms of grids.
    pub open spec fn agrees_beside_grids(&self, other: &Self) -> bool {
        &&& self.version == other.version
        &&& self.parts@.len() == other.parts@.len()
        &&& forall|i: int|
            #![trigger self.parts@[i]]
            0 <= i < self.parts@.len() ==> part_docs_agree(self.parts@[i], other.parts@[i])
        &&& self.frames@.len() == other.frames@.len()
        &&& self.part_frames@ == other.part_frames@
        &&& self.region_frames@ == other.region_frames@
        &&& self.welds@ == other.welds@
        &&& self.rigid_links@ == other.rigid_links@
        &&& self.bearings@ == other.bearings@
        &&& self.drive_links@.len() == other.drive_links@.len()
        &&& forall|i: int|
            #![trigger self.drive_links@[i]]
            0 <= i < self.drive_links@.len() ==> link_docs_agree(
                self.drive_links@[i],
                other.drive_links@[i],
            )
        &&& self.input_seat_links@ == other.input_seat_links@
        &&& self.seat_controller_links@ == other.seat_controller_links@
        &&& self.gearbox_configs@.len() == other.gearbox_configs@.len()
        &&& forall|i: int|
            #![trigger self.gearbox_configs@[i]]
            0 <= i < self.gearbox_configs@.len() ==> lane_docs_agree(
                self.gearbox_configs@[i],
                other.gearbox_configs@[i],
            )
        &&& self.regions@.len() == other.regions@.len()
        &&& forall|i: int|
            #![trigger self.regions@[i]]
            0 <= i < self.regions@.len() ==> region_docs_agree(
                self.regions@[i],
                other.regions@[i],
            )
        &&& self.shape_features@.len() == other.shape_features@.len()
        &&& forall|i: int|
            #![trigger self.shape_features@[i]]
            0 <= i < self.shape_features@.len() ==> feature_docs_agree(
                self.shape_features@[i],
                other.shape_features@[i],
            )
        &&& self.sockets@ == other.sockets@
    }

    /// Whether rows stand in the order in which they come back.
    pub open spec fn in_loading_order(&self) -> bool {
        let welds = self.welds@;
        let order = replay_order(self.parts@);
        &&& order.len() == self.parts@.len()
        &&& forall|k: int| #![trigger order[k]] 0 <= k < order.len() ==> order[k] == k
        &&& welds_where(welds, false, welds.len() as int) + welds_where(
            welds,
            true,
            welds.len() as int,
        ) == welds
    }

    /// Whether checking a grid keeps its transform, and the default one comes first.
    pub open spec fn grids_kept(&self, frames: Seq<Result<ConstructionFrame, FrameError>>) -> bool {
        &&& 0 < frames.len() == self.frames@.len()
        &&& forall|i: int|
            #![trigger frames[i]]
            0 <= i < frames.len() ==> frames[i] is Ok && grid_row(frames[i]->Ok_0)
                == self.frames@[i]
        &&& frames[0]->Ok_0 == ConstructionFrame::identity()
    }
}

/// The row of a grid.
pub open spec fn grid_row(frame: ConstructionFrame) -> ConstructionFrameDoc {
    ConstructionFrameDoc { translation: frame.translation, rotation: frame.rotation }
}

/// Whether every row that comes back stands where it stood.
spec fn rows_stay(names: Renaming, loaded: &ConstructionGraph) -> bool {
    &&& forall|part: PartId| #[trigger]
        names.parts.contains(part) ==> row_of(loaded.parts.rows.keys@, names.part(part)) == row_of(
            names.parts,
            part,
        )
    &&& forall|region: RegionId| #[trigger]
        names.regions.contains(region) ==> row_of(
            loaded.regions.rows.keys@,
            names.region(region),
        ) == row_of(names.regions, region)
    &&& forall|feature: ShapeFeatureId| #[trigger]
        names.features.contains(feature) ==> row_of(
            loaded.shape_features.rows.keys@,
            names.feature(feature),
        ) == row_of(names.features, feature)
    &&& forall|bearing: BearingId| #[trigger]
        names.bearings.contains(bearing) ==> row_of(
            loaded.bearings.rows.keys@,
            names.bearing(bearing),
        ) == row_of(names.bearings, bearing)
}

/// A row that none left stands in the slot of its handle.
proof fn lemma_slot_row<K: Handle, V>(arena: &Arena<K, V>, key: K, row: int)
    requires
        arena.wf(),
        arena.gapless(),
        0 <= row < arena.rows.keys@.len() <= u32::MAX,
        key.slot() == row,
        key.age() == 0,
    ensures
        arena.rows.keys@[row] == key,
        row_of(arena.rows.keys@, key) == row,
{
    let held = arena.rows.keys@[row];
    held.rank_is_slot_then_age();
    key.rank_is_slot_then_age();
    K::rank_identifies(held, key);
    arena.rows.lemma_index(row);
}

/// Parts come back under the handles of their rows.
proof fn lemma_part_handles(document: &CreationDocument)
    requires
        document.in_loading_order(),
        document.parts@.len() <= u32::MAX,
    ensures
        forall|row: int|
            #![trigger part_ids(document.parts@)[row]]
            0 <= row < document.parts@.len() ==> part_ids(document.parts@)[row] == (PartId {
                index: row as u32,
                generation: 0,
            }),
{
    let order = replay_order(document.parts@);
    assert forall|row: int| #![trigger part_ids(document.parts@)[row]]
        0 <= row < document.parts@.len() implies part_ids(document.parts@)[row] == (PartId {
        index: row as u32,
        generation: 0,
    }) by {
        assert(order[row] == row as u32);
        assert(order.contains(row as u32));
        let at = order.index_of(row as u32);
        assert(order[at] == row as u32);
    }
}

/// Every row that comes back stands where it stood.
proof fn lemma_rows_stay(
    graph: &ConstructionGraph,
    document: &CreationDocument,
    sockets: Seq<BearingSocket>,
    space: CanonicalSpace,
    loaded: &ConstructionGraph,
)
    requires
        graph.saveable(),
        document.captures(graph, sockets, space),
        document.in_loading_order(),
        loaded.wf(),
        document.parts_rebuilt(loaded),
        document.connections_rebuilt(loaded),
    ensures
        rows_stay(renaming(graph, document), loaded),
        forall|row: int|
            #![trigger loaded.parts.rows.keys@[row]]
            0 <= row < loaded.parts.rows.keys@.len() ==> loaded.parts.rows.keys@[row]
                == part_ids(document.parts@)[row],
{
    let names = renaming(graph, document);
    lemma_part_handles(document);
    assert forall|row: int| #![trigger loaded.parts.rows.keys@[row]]
        0 <= row < loaded.parts.rows.keys@.len() implies loaded.parts.rows.keys@[row]
        == part_ids(document.parts@)[row] by {
        lemma_slot_row(&loaded.parts, part_ids(document.parts@)[row], row);
    }
    assert forall|part: PartId| #[trigger] names.parts.contains(part) implies row_of(
        loaded.parts.rows.keys@,
        names.part(part),
    ) == row_of(names.parts, part) by {
        lemma_row(names.parts, part);
        lemma_slot_row(&loaded.parts, names.part(part), row_of(names.parts, part) as int);
    }
    assert forall|region: RegionId| #[trigger] names.regions.contains(region) implies row_of(
        loaded.regions.rows.keys@,
        names.region(region),
    ) == row_of(names.regions, region) by {
        lemma_row(names.regions, region);
        lemma_slot_row(&loaded.regions, names.region(region), row_of(names.regions, region) as int);
    }
    assert forall|feature: ShapeFeatureId| #[trigger] names.features.contains(feature) implies row_of(
        loaded.shape_features.rows.keys@,
        names.feature(feature),
    ) == row_of(names.features, feature) by {
        lemma_row(names.features, feature);
        lemma_slot_row(
            &loaded.shape_features,
            names.feature(feature),
            row_of(names.features, feature) as int,
        );
    }
    assert forall|bearing: BearingId| #[trigger] names.bearings.contains(bearing) implies row_of(
        loaded.bearings.rows.keys@,
        names.bearing(bearing),
    ) == row_of(names.bearings, bearing) by {
        lemma_row(names.bearings, bearing);
        lemma_slot_row(
            &loaded.bearings,
            names.bearing(bearing),
            row_of(names.bearings, bearing) as int,
        );
    }
}

/// A topology key that comes back is written as it was.
proof fn lemma_key_stays(names: Renaming, loaded: &ConstructionGraph, key: TopologyKey)
    requires
        rows_stay(names, loaded),
        key_listed(key, names.features),
    ensures
        key_doc_of(names.key(key), loaded.shape_features.rows.keys@) == key_doc_of(
            key,
            names.features,
        ),
{
}

/// A face that comes back is written as it was.
proof fn lemma_face_stays(names: Renaming, loaded: &ConstructionGraph, face: FaceRef)
    requires
        rows_stay(names, loaded),
        face_listed(face, names.parts, names.features),
    ensures
        face_doc_of(
            names.face(face),
            loaded.parts.rows.keys@,
            loaded.shape_features.rows.keys@,
        ) == face_doc_of(face, names.parts, names.features),
{
    if face.patch is Some {
        lemma_key_stays(names, loaded, face.patch->0);
    }
}

/// An edge chain that comes back is written as it was.
proof fn lemma_chain_stays(names: Renaming, loaded: &ConstructionGraph, chain: EdgeChainRef)
    requires
        rows_stay(names, loaded),
        chain_listed(chain, names.parts, names.regions, names.features),
    ensures
        chain_doc_of(
            names.chain(chain),
            loaded.parts.rows.keys@,
            loaded.regions.rows.keys@,
            loaded.shape_features.rows.keys@,
        ) == chain_doc_of(chain, names.parts, names.regions, names.features),
{
    lemma_key_stays(names, loaded, chain.edge);
}

/// Part rows are written as they were.
proof fn lemma_parts_resaved(
    graph: &ConstructionGraph,
    document: &CreationDocument,
    sockets: Seq<BearingSocket>,
    space: CanonicalSpace,
    loaded: &ConstructionGraph,
    row: int,
    doc: PartDoc,
)
    requires
        graph.saveable(),
        document.captures(graph, sockets, space),
        document.in_loading_order(),
        loaded.wf(),
        document.parts_rebuilt(loaded),
        document.connections_rebuilt(loaded),
        0 <= row < document.parts@.len(),
        describes_part(
            loaded.parts.rows.values@[row],
            loaded.parent_row(loaded.parts.rows.keys@[row]),
            doc,
        ),
    ensures
        part_docs_agree(doc, document.parts@[row]),
{
    let names = renaming(graph, document);
    let part = graph.parts.rows.keys@[row];
    lemma_rows_stay(graph, document, sockets, space, loaded);
    saved_parts_come_back(graph, document, sockets, space, loaded);
    graph.parts.rows.lemma_index(row);
    loaded.parts.rows.lemma_index(row);
    let again = loaded.parts.rows.keys@[row];
    assert(graph.has_part(part));
    assert(names.part(part) == again);
    assert(describes_part(
        graph.parts.rows.values@[row],
        graph.parent_row(part),
        document.parts@[row],
    ));
    if graph.parts.rows.values@[row].shape is Transmission {
        let parent = graph.transmission_parents@[part];
        assert(names.parts.contains(parent));
        assert(loaded.transmission_parents@[again] == names.part(parent));
    }
}

/// Grid rows and memberships are written as they were.
proof fn lemma_grids_resaved(
    graph: &ConstructionGraph,
    document: &CreationDocument,
    sockets: Seq<BearingSocket>,
    space: CanonicalSpace,
    frames: Seq<Result<ConstructionFrame, FrameError>>,
    owners: Seq<Option<u32>>,
    loaded: LoadedCreation,
    again: &CreationDocument,
    space_again: CanonicalSpace,
)
    requires
        graph.saveable(),
        document.captures(graph, sockets, space),
        document.in_loading_order(),
        frames.len() == document.frames@.len(),
        starts_default(valid_frames(frames)),
        document.rebuilt(frames, owners, loaded),
        again.captures(&loaded.graph, loaded.sockets@, space_again),
    ensures
        again.frames@ == frames_back(valid_frames(frames)).map_values(
            |frame: ConstructionFrame| grid_row(frame),
        ),
        again.frames@.len() == document.frames@.len(),
        again.part_frames@ == document.part_frames@,
        again.region_frames@ == document.region_frames@,
{
    let valid = valid_frames(frames);
    let names = renaming(graph, document);
    let grids = graph.frames.frames.keys@;
    let held = loaded.graph.frames.frames;
    assert(loaded.graph.canonical());
    assert(again.frames@ =~= frames_back(valid).map_values(
        |frame: ConstructionFrame| grid_row(frame),
    ));
    lemma_rows_stay(graph, document, sockets, space, &loaded.graph);
    lemma_part_handles(document);
    let ids = part_ids(document.parts@);
    let members = named_grids(document.part_frames@, frame_ids(valid));
    assert forall|i: int| #![trigger again.part_frames@[i]]
        0 <= i < again.part_frames@.len() implies again.part_frames@[i]
        == document.part_frames@[i] by {
        let part = graph.parts.rows.keys@[i];
        graph.parts.rows.lemma_index(i);
        let grid = graph.frame_of_part(part)->0;
        assert(graph.frames.frames@.dom().contains(grid)) by {
            if graph.frames.members@.dom().contains(part) {
                assert(graph.frames.frames@.dom().contains(graph.frames.members@[part]));
            }
        }
        lemma_row(grids, grid);
        let at = document.part_frames@[i] as int;
        assert(at == row_of(grids, grid));
        let id = loaded.graph.parts.rows.keys@[i];
        assert(id == ids[i]);
        loaded.graph.parts.rows.lemma_index(i);
        assert(ids.contains(id));
        let place = ids.index_of(id);
        assert(ids[place] == id);
        assert(place == i);
        assert(members[i] == frame_ids(valid)[at]);
        assert(loaded.graph.frames.members@[id] == ConstructionFrameId(at as u64));
        assert(held.keys@[at] == ConstructionFrameId(at as u64));
        held.lemma_index(at);
    }
    assert(again.part_frames@ =~= document.part_frames@);
    let regions = named_grids(document.region_frames@, frame_ids(valid));
    assert forall|i: int| #![trigger again.region_frames@[i]]
        0 <= i < again.region_frames@.len() implies again.region_frames@[i]
        == document.region_frames@[i] by {
        let region = graph.regions.rows.keys@[i];
        assert(graph.frame_of_region(region) is Some);
        let grid = graph.frame_of_region(region)->0;
        assert(graph.frames.frames@.dom().contains(grid));
        lemma_row(grids, grid);
        let at = document.region_frames@[i] as int;
        assert(at == row_of(grids, grid));
        let id = loaded.graph.regions.rows.keys@[i];
        loaded.graph.regions.rows.lemma_index(i);
        assert(id.slot() == i && id.age() == 0);
        assert(regions[i] == frame_ids(valid)[at]);
        assert(loaded.graph.frames.region_frames@.dom().contains(id));
        assert(loaded.graph.frames.region_frames@[id] == ConstructionFrameId(at as u64));
        assert(held.keys@[at] == ConstructionFrameId(at as u64));
        held.lemma_index(at);
    }
    assert(again.region_frames@ =~= document.region_frames@);
}

/// Welds behind those that hold transmissions are written in order.
proof fn lemma_welds_behind(graph: &ConstructionGraph, first: int, count: int)
    requires
        0 <= first <= count,
        forall|k: int|
            #![trigger graph.welds.rows.keys@[k]]
            0 <= k < count ==> (graph.holds_transmission(graph.welds.rows.keys@[k]) <==> k < first),
    ensures
        graph.plain_welds(count) == Seq::new(
            (count - first) as nat,
            |k: int|
                weld_doc_of(
                    graph.welds.rows.values@[first + k],
                    graph.parts.rows.keys@,
                    graph.shape_features.rows.keys@,
                ),
        ),
    decreases count,
{
    if count > first {
        lemma_welds_behind(graph, first, count - 1);
        assert(graph.holds_transmission(graph.welds.rows.keys@[count - 1]) <==> count - 1 < first);
        assert(graph.plain_welds(count) =~= Seq::new(
            (count - first) as nat,
            |k: int|
                weld_doc_of(
                    graph.welds.rows.values@[first + k],
                    graph.parts.rows.keys@,
                    graph.shape_features.rows.keys@,
                ),
        ));
    } else if count > 0 {
        lemma_welds_behind(graph, first - 1, count - 1);
        assert(graph.holds_transmission(graph.welds.rows.keys@[count - 1]) <==> count - 1 < first);
        assert(graph.plain_welds(count) =~= Seq::<WeldDoc>::empty());
    }
}

/// The first welds to come back hold transmissions, and no others do.
proof fn lemma_first_welds_hold(document: &CreationDocument, loaded: &ConstructionGraph, k: int)
    requires
        loaded.wf(),
        document.parts@.len() <= u32::MAX,
        document.parts_rebuilt(loaded),
        document.connections_rebuilt(loaded),
        0 <= k < loaded.welds.rows.keys@.len(),
    ensures
        loaded.holds_transmission(loaded.welds.rows.keys@[k]) <==> k < document.parts@.len()
            - plain_count(document.parts@),
{
    let docs = document.parts@;
    let plain = plain_count(docs);
    let weld = loaded.welds.rows.keys@[k];
    let held = loaded.transmission_welds;
    assert(weld.slot() == k && weld.age() == 0);
    if k < docs.len() - plain {
        let part = PartId { index: (k + plain) as u32, generation: 0 };
        assert(held@.dom().contains(part));
        let at = held.keys@.index_of(part);
        assert(held.keys@[at] == part);
        held.lemma_index(at);
        assert(held.values@[at] == weld);
    }
    if loaded.holds_transmission(weld) {
        let at = choose|at: int|
            0 <= at < held.values@.len() && #[trigger] held.values@[at] == weld;
        held.lemma_index(at);
        assert(held@.dom().contains(held.keys@[at]));
    }
}

/// Weld rows are written as they were.
proof fn lemma_welds_resaved(
    graph: &ConstructionGraph,
    document: &CreationDocument,
    sockets: Seq<BearingSocket>,
    space: CanonicalSpace,
    loaded: &ConstructionGraph,
)
    requires
        graph.sound(),
        document.captures(graph, sockets, space),
        document.in_loading_order(),
        loaded.wf(),
        document.parts_rebuilt(loaded),
        document.connections_rebuilt(loaded),
    ensures
        loaded.plain_welds(loaded.welds.rows.keys@.len() as int) == document.welds@,
{
    let names = renaming(graph, document);
    let docs = document.welds@;
    let count = docs.len() as int;
    let attached = attach_welds(document.parts@, document.parts@.len() as int);
    let first = attached.len() as int;
    let total = loaded.welds.rows.keys@.len() as int;
    let none = Seq::<ShapeFeatureId>::empty();
    let features = feature_ids(document.shape_features@.len());
    let plain_docs = welds_where(docs, false, count);
    let trimmed_docs = welds_where(docs, true, count);
    let plain = welds_of(plain_docs, names.ids, none);
    let trimmed = welds_of(trimmed_docs, names.ids, features);
    lemma_rows_stay(graph, document, sockets, space, loaded);
    lemma_few_plain_rows(document);
    assert forall|k: int| #![trigger loaded.welds.rows.keys@[k]]
        0 <= k < total implies (loaded.holds_transmission(loaded.welds.rows.keys@[k]) <==> k
        < first) by {
        lemma_first_welds_hold(document, loaded, k);
    }
    assert(total == first + plain.len() + trimmed.len());
    lemma_welds_behind(loaded, first, total);
    let written = loaded.plain_welds(total);
    assert forall|k: int| #![trigger written[k]] 0 <= k < written.len() implies written[k]
        == docs[k] by {
        assert(docs[k] == (plain_docs + trimmed_docs)[k]);
        let patched = k >= plain_docs.len();
        let at = if patched {
            k - plain_docs.len()
        } else {
            k
        };
        let row = lemma_picked_weld(docs, patched, count, at);
        let held = lemma_plain_weld(graph, graph.welds.rows.keys@.len() as int, row);
        let weld = graph.welds.rows.values@[held];
        lemma_weld(graph, names, held);
        assert(docs[row] == weld_doc_of(weld, names.parts, names.features));
        assert(loaded.welds.rows.values@[first + k] == names.weld(weld));
        assert(graph.face_live(weld.first) && graph.face_live(weld.second));
        lemma_face_stays(names, loaded, weld.first);
        lemma_face_stays(names, loaded, weld.second);
    }
    assert(written =~= docs);
}

/// Rows that extend nothing are no more than all rows.
proof fn lemma_few_plain_rows(document: &CreationDocument)
    requires
        document.in_loading_order(),
    ensures
        0 <= plain_count(document.parts@) <= document.parts@.len(),
{
}

/// Rows of links, joints, regions, features and rings are written as they were.
proof fn lemma_connections_resaved(
    graph: &ConstructionGraph,
    document: &CreationDocument,
    sockets: Seq<BearingSocket>,
    space: CanonicalSpace,
    frames: Seq<Result<ConstructionFrame, FrameError>>,
    owners: Seq<Option<u32>>,
    loaded: LoadedCreation,
    again: &CreationDocument,
    space_again: CanonicalSpace,
)
    requires
        graph.sound(),
        document.captures(graph, sockets, space),
        forall|i: int|
            #![trigger sockets[i]]
            0 <= i < sockets.len() ==> graph.face_live(sockets[i].source)
                && sockets[i].source.owner is Part,
        document.in_loading_order(),
        document.rebuilt(frames, owners, loaded),
        again.captures(&loaded.graph, loaded.sockets@, space_again),
    ensures
        again.rigid_links@ == document.rigid_links@,
        again.bearings@ == document.bearings@,
        again.regions@.len() == document.regions@.len(),
        forall|i: int|
            #![trigger again.regions@[i]]
            0 <= i < again.regions@.len() ==> region_docs_agree(
                again.regions@[i],
                document.regions@[i],
            ),
        again.shape_features@.len() == document.shape_features@.len(),
        forall|i: int|
            #![trigger again.shape_features@[i]]
            0 <= i < again.shape_features@.len() ==> feature_docs_agree(
                again.shape_features@[i],
                document.shape_features@[i],
            ),
        again.sockets@ == document.sockets@,
{
    let names = renaming(graph, document);
    let held = loaded.graph;
    assert(held.canonical());
    lemma_rows_stay(graph, document, sockets, space, &held);
    saved_connections_come_back(graph, document, sockets, space, &held);
    saved_rings_come_back(graph, document, sockets, space, frames, owners, loaded);
    assert forall|i: int| #![trigger again.rigid_links@[i]]
        0 <= i < again.rigid_links@.len() implies again.rigid_links@[i]
        == document.rigid_links@[i] by {
        let link = graph.rigid_links.rows.values@[i];
        assert(held.rigid_links.rows.values@[i].first == names.part(link.first));
        assert(document.rigid_links@[i].first == row_of(names.parts, link.first));
        assert(names.parts.contains(link.first) && names.parts.contains(link.second));
    }
    assert(again.rigid_links@ =~= document.rigid_links@);
    assert forall|i: int| #![trigger again.bearings@[i]]
        0 <= i < again.bearings@.len() implies again.bearings@[i] == document.bearings@[i] by {
        let bearing = graph.canonical_bearing(space, i);
        let before = graph.bearings.rows.values@[i];
        assert(held.bearings.rows.values@[i] == names.joint(bearing));
        assert(document.bearings@[i] == bearing_doc_of(bearing, names.parts, names.features));
        assert(graph.face_live(before.source));
        lemma_face_stays(names, &held, before.source);
        if before.target is Some {
            lemma_face_stays(names, &held, before.target->0);
        }
    }
    assert(again.bearings@ =~= document.bearings@);
    assert forall|i: int| #![trigger again.regions@[i]]
        0 <= i < again.regions@.len() implies region_docs_agree(
        again.regions@[i],
        document.regions@[i],
    ) by {
        assert(held.regions.rows.values@[i].agrees(&graph.regions.rows.values@[i]));
        assert(describes_region(graph.regions.rows.values@[i], document.regions@[i]));
        assert(describes_region(held.regions.rows.values@[i], again.regions@[i]));
    }
    assert forall|i: int| #![trigger again.shape_features@[i]]
        0 <= i < again.shape_features@.len() implies feature_docs_agree(
        again.shape_features@[i],
        document.shape_features@[i],
    ) by {
        let feature = graph.shape_features.rows.values@[i];
        let back = held.shape_features.rows.values@[i];
        assert(describes_feature(
            feature,
            names.parts,
            names.regions,
            names.features,
            document.shape_features@[i],
        ));
        assert(describes_feature(
            back,
            held.parts.rows.keys@,
            held.regions.rows.keys@,
            held.shape_features.rows.keys@,
            again.shape_features@[i],
        ));
        assert(graph.feature_live(feature));
        assert forall|k: int| 0 <= k < feature.targets@.len() implies again.shape_features@[i].targets@[k]
            == document.shape_features@[i].targets@[k] by {
            let chain = feature.targets@[k];
            lemma_chain_stays(names, &held, chain);
            assert(back.targets@[k] == names.chain(chain));
        }
        assert(again.shape_features@[i].targets@ =~= document.shape_features@[i].targets@);
    }
    assert forall|i: int| #![trigger again.sockets@[i]] 0 <= i < again.sockets@.len() implies again.sockets@[i]
        == document.sockets@[i] by {
        let ring = graph.canonical_socket(space, sockets, i);
        assert(loaded.sockets@[i] == names.socket(ring));
        assert(document.sockets@[i] == socket_doc_of(ring, names.parts, names.features));
        assert(graph.face_live(sockets[i].source));
        lemma_face_stays(names, &held, sockets[i].source);
    }
    assert(again.sockets@ =~= document.sockets@);
}

/// Gear lanes come back in the order of their rows.
proof fn lemma_lanes_in_order(
    graph: &ConstructionGraph,
    document: &CreationDocument,
    sockets: Seq<BearingSocket>,
    space: CanonicalSpace,
    loaded: &ConstructionGraph,
)
    requires
        graph.sound(),
        document.captures(graph, sockets, space),
        document.in_loading_order(),
        loaded.wf(),
        document.controls_rebuilt(loaded),
    ensures
        loaded.gearboxes.keys@ == graph.gearboxes.keys@.map_values(
            |lane: GearLane| renaming(graph, document).lane(lane),
        ),
{
    let names = renaming(graph, document);
    let lanes = graph.gearboxes.keys@;
    let renamed = lanes.map_values(|lane: GearLane| names.lane(lane));
    let docs = document.gearbox_configs@;
    let count = docs.len() as int;
    let keys = loaded.gearboxes.keys@;
    lemma_part_handles(document);
    lemma_new_handles(graph, document, sockets, space);
    assert forall|i: int, j: int| #![trigger renamed[i], renamed[j]]
        0 <= i < j < renamed.len() implies renamed[i].rank() < renamed[j].rank() by {
        let a = lanes[i].controller;
        let b = lanes[j].controller;
        assert(lanes[i].rank() < lanes[j].rank());
        assert(names.parts.contains(a) && names.parts.contains(b));
        lemma_row(names.parts, a);
        lemma_row(names.parts, b);
        let p = row_of(names.parts, a) as int;
        let q = row_of(names.parts, b) as int;
        if p > q {
            assert(names.parts[q].rank() < names.parts[p].rank());
        }
        names.ids[p].rank_is_slot_then_age();
        names.ids[q].rank_is_slot_then_age();
    }
    assert(ascending(renamed));
    assert forall|lane: GearLane| #[trigger] keys.contains(lane) <==> renamed.contains(lane) by {
        assert(keys.contains(lane) <==> loaded.gearboxes@.dom().contains(lane));
        if renamed.contains(lane) {
            let i = renamed.index_of(lane);
            assert(renamed[i] == lane);
            lemma_lane_row(graph, document, sockets, space, i, count);
        }
        if loaded.gearboxes@.dom().contains(lane) {
            let row = last_lane_row(docs, names.ids, lane, count);
            lemma_last_lane(docs, names.ids, lane, count);
            lemma_lane_row(graph, document, sockets, space, row, count);
            assert(renamed[row] == lane);
        }
    }
    ascending_sequences_agree(keys, renamed);
}

/// The last row of a lane is a row of that lane.
proof fn lemma_last_lane(
    docs: Seq<GearboxConfigDoc>,
    parts: Seq<PartId>,
    lane: GearLane,
    count: int,
)
    requires
        0 <= count <= docs.len(),
        last_lane_row(docs, parts, lane, count) >= 0,
    ensures
        last_lane_row(docs, parts, lane, count) < count,
        lane_of(docs[last_lane_row(docs, parts, lane, count)], parts) == lane,
    decreases count,
{
    if count > 0 && lane_of(docs[count - 1], parts) != lane {
        lemma_last_lane(docs, parts, lane, count - 1);
    }
}

/// Rows of wires, logical links and gear lanes are written as they were.
proof fn lemma_controls_resaved(
    graph: &ConstructionGraph,
    document: &CreationDocument,
    sockets: Seq<BearingSocket>,
    space: CanonicalSpace,
    loaded: &ConstructionGraph,
    rings: Seq<BearingSocket>,
    again: &CreationDocument,
    space_again: CanonicalSpace,
)
    requires
        graph.sound(),
        document.captures(graph, sockets, space),
        document.in_loading_order(),
        loaded.wf(),
        document.parts_rebuilt(loaded),
        document.connections_rebuilt(loaded),
        document.controls_rebuilt(loaded),
        again.captures(loaded, rings, space_again),
    ensures
        again.drive_links@.len() == document.drive_links@.len(),
        forall|i: int|
            #![trigger again.drive_links@[i]]
            0 <= i < again.drive_links@.len() ==> link_docs_agree(
                again.drive_links@[i],
                document.drive_links@[i],
            ),
        again.input_seat_links@ == document.input_seat_links@,
        again.seat_controller_links@ == document.seat_controller_links@,
        again.gearbox_configs@.len() == document.gearbox_configs@.len(),
        forall|i: int|
            #![trigger again.gearbox_configs@[i]]
            0 <= i < again.gearbox_configs@.len() ==> lane_docs_agree(
                again.gearbox_configs@[i],
                document.gearbox_configs@[i],
            ),
{
    let names = renaming(graph, document);
    lemma_rows_stay(graph, document, sockets, space, loaded);
    saved_controls_come_back(graph, document, sockets, space, loaded);
    assert forall|i: int| #![trigger again.drive_links@[i]]
        0 <= i < again.drive_links@.len() implies link_docs_agree(
        again.drive_links@[i],
        document.drive_links@[i],
    ) by {
        let wire = graph.drive_links.rows.values@[i];
        let back = loaded.drive_links.rows.values@[i];
        let before = document.drive_links@[i];
        let after = again.drive_links@[i];
        assert(describes_link(wire, names.parts, names.bearings, before));
        assert(describes_link(
            back,
            loaded.parts.rows.keys@,
            loaded.bearings.rows.keys@,
            after,
        ));
        assert(names.parts.contains(wire.controller) && names.bearings.contains(wire.bearing));
        assert(back.controller == names.part(wire.controller));
        assert(after.program.states@ =~= before.program.states@);
    }
    assert forall|i: int| #![trigger again.input_seat_links@[i]]
        0 <= i < again.input_seat_links@.len() implies again.input_seat_links@[i]
        == document.input_seat_links@[i] by {
        let link = graph.input_seat_links.rows.values@[i];
        assert(loaded.input_seat_links.rows.values@[i].input == names.part(link.input));
        assert(document.input_seat_links@[i].input == row_of(names.parts, link.input));
        assert(names.parts.contains(link.input) && names.parts.contains(link.seat));
    }
    assert(again.input_seat_links@ =~= document.input_seat_links@);
    assert forall|i: int| #![trigger again.seat_controller_links@[i]]
        0 <= i < again.seat_controller_links@.len() implies again.seat_controller_links@[i]
        == document.seat_controller_links@[i] by {
        let link = graph.seat_controller_links.rows.values@[i];
        assert(loaded.seat_controller_links.rows.values@[i].seat == names.part(link.seat));
        assert(document.seat_controller_links@[i].seat == row_of(names.parts, link.seat));
        assert(names.parts.contains(link.seat) && names.parts.contains(link.controller));
    }
    assert(again.seat_controller_links@ =~= document.seat_controller_links@);
    lemma_lanes_in_order(graph, document, sockets, space, loaded);
    assert forall|i: int| #![trigger again.gearbox_configs@[i]]
        0 <= i < again.gearbox_configs@.len() implies lane_docs_agree(
        again.gearbox_configs@[i],
        document.gearbox_configs@[i],
    ) by {
        let lane = graph.gearboxes.keys@[i];
        loaded.gearboxes.lemma_index(i);
        assert(loaded.gearboxes.keys@[i] == names.lane(lane));
        assert(describes_lane(
            lane,
            graph.gearboxes.values@[i],
            names.parts,
            document.gearbox_configs@[i],
        ));
        assert(describes_lane(
            loaded.gearboxes.keys@[i],
            loaded.gearboxes.values@[i],
            loaded.parts.rows.keys@,
            again.gearbox_configs@[i],
        ));
        assert(names.parts.contains(lane.controller));
    }
}

/// Saving what was loaded gives the document that it was loaded from, as long
/// as the rows of that document stand in the order in which they come back.
/// Grids are written as checking left them, which is as they were where it
/// kept them.
pub proof fn resaving_gives_the_same_document(
    graph: &ConstructionGraph,
    document: &CreationDocument,
    sockets: Seq<BearingSocket>,
    space: CanonicalSpace,
    checks: &LoadChecks,
    owners: Seq<Option<u32>>,
    loaded: LoadedCreation,
    again: &CreationDocument,
    space_again: CanonicalSpace,
)
    requires
        graph.saveable(),
        graph.ground_whole(),
        graph.controls_sound(),
        document.captures(graph, sockets, space),
        forall|i: int|
            #![trigger sockets[i]]
            0 <= i < sockets.len() ==> graph.face_live(sockets[i].source),
        document.in_loading_order(),
        checks.covers(document),
        starts_default(valid_frames(checks.frames@)),
        document.load_fault(checks) is None,
        document.rebuilt(checks.frames@, owners, loaded),
        again.captures(&loaded.graph, loaded.sockets@, space_again),
    ensures
        again.agrees_beside_grids(document),
        again.frames@ == frames_back(valid_frames(checks.frames@)).map_values(
            |frame: ConstructionFrame| grid_row(frame),
        ),
        document.grids_kept(checks.frames@) ==> again.agrees(document),
        loaded.name@ == document.name@,
        loaded.graph.frames.editing_frame == ConstructionFrameId(0),
        loaded.graph.parts.rows.keys@.len() == graph.parts.rows.keys@.len(),
        loaded.graph.rigid_links.rows.values@.len() == graph.rigid_links.rows.values@.len(),
        loaded.graph.bearings.rows.values@.len() == graph.bearings.rows.values@.len(),
        loaded.graph.drive_links.rows.values@.len() == graph.drive_links.rows.values@.len(),
        loaded.graph.regions.rows.values@.len() == graph.regions.rows.values@.len(),
{
    let held = loaded.graph;
    let frames = checks.frames@;
    loadable_constructions_are_sound(graph, document, sockets, space, checks);
    assert forall|i: int| #![trigger sockets[i]] 0 <= i < sockets.len() implies graph.face_live(
        sockets[i].source,
    ) && sockets[i].source.owner is Part by {}
    lemma_rows_stay(graph, document, sockets, space, &held);
    assert forall|i: int| #![trigger again.parts@[i]] 0 <= i < again.parts@.len() implies part_docs_agree(
        again.parts@[i],
        document.parts@[i],
    ) by {
        lemma_parts_resaved(graph, document, sockets, space, &held, i, again.parts@[i]);
    }
    lemma_grids_resaved(
        graph,
        document,
        sockets,
        space,
        frames,
        owners,
        loaded,
        again,
        space_again,
    );
    lemma_welds_resaved(graph, document, sockets, space, &held);
    lemma_connections_resaved(
        graph,
        document,
        sockets,
        space,
        frames,
        owners,
        loaded,
        again,
        space_again,
    );
    lemma_controls_resaved(
        graph,
        document,
        sockets,
        space,
        &held,
        loaded.sockets@,
        again,
        space_again,
    );
    saved_connections_come_back(graph, document, sockets, space, &held);
    saved_controls_come_back(graph, document, sockets, space, &held);
    if document.grids_kept(frames) {
        let valid = valid_frames(frames);
        assert(frames[0] is Ok);
        assert(frames_back(valid) =~= valid);
        assert forall|i: int| #![trigger again.frames@[i]]
            0 <= i < again.frames@.len() implies again.frames@[i] == document.frames@[i] by {
            assert(frames[i]->Ok_0 == valid[i]);
        }
        assert(again.frames@ =~= document.frames@);
    }
}

/// Rows that extend nothing come back in order.
proof fn lemma_plain_rows_in_order(docs: Seq<PartDoc>, count: int)
    requires
        0 <= count <= docs.len() <= u32::MAX,
        forall|i: int| #![trigger docs[i]] 0 <= i < docs.len() ==> parent_in(docs[i]) is None,
    ensures
        plain_rows(docs, count) == Seq::new(count as nat, |k: int| k as u32),
        first_extensions(docs, count) == Seq::<u32>::empty(),
    decreases count,
{
    if count > 0 {
        lemma_plain_rows_in_order(docs, count - 1);
        assert(parent_in(docs[count - 1]) is None);
    }
    assert(plain_rows(docs, count) =~= Seq::new(count as nat, |k: int| k as u32));
}

/// Welds of plain faces are all picked, and none other.
proof fn lemma_plain_welds_picked(docs: Seq<WeldDoc>, count: int)
    requires
        0 <= count <= docs.len(),
        forall|i: int| #![trigger docs[i]] 0 <= i < docs.len() ==> !weld_patched(docs[i]),
    ensures
        welds_where(docs, false, count) == docs.take(count),
        welds_where(docs, true, count) == Seq::<WeldDoc>::empty(),
    decreases count,
{
    if count > 0 {
        lemma_plain_welds_picked(docs, count - 1);
        assert(!weld_patched(docs[count - 1]));
    }
    assert(welds_where(docs, false, count) =~= docs.take(count));
}

/// A document without transmissions whose welds hold plain faces stands in the
/// order in which its rows come back.
pub proof fn plain_documents_stand_in_loading_order(document: &CreationDocument)
    requires
        document.parts@.len() <= u32::MAX,
        forall|i: int|
            #![trigger document.parts@[i]]
            0 <= i < document.parts@.len() ==> parent_in(document.parts@[i]) is None,
        forall|i: int|
            #![trigger document.welds@[i]]
            0 <= i < document.welds@.len() ==> !weld_patched(document.welds@[i]),
    ensures
        document.in_loading_order(),
{
    let docs = document.parts@;
    let welds = document.welds@;
    lemma_plain_rows_in_order(docs, docs.len() as int);
    assert(attach_order(docs, Seq::<u32>::empty(), docs.len()) =~= Seq::<u32>::empty());
    assert(replay_order(docs) =~= Seq::new(docs.len(), |k: int| k as u32));
    lemma_plain_welds_picked(welds, welds.len() as int);
    assert(welds.take(welds.len() as int) + Seq::<WeldDoc>::empty() =~= welds);
}

impl ConstructionGraph {
    /// Whether there is no transmission, and no weld on a trimmed or generated surface.
    pub open spec fn plainly_joined(&self) -> bool {
        &&& forall|i: int|
            #![trigger self.parts.rows.values@[i]]
            0 <= i < self.parts.rows.values@.len() ==> !(self.parts.rows.values@[i].shape
                is Transmission)
        &&& self.transmission_welds.values@.len() == 0
        &&& forall|i: int|
            #![trigger self.welds.rows.values@[i]]
            0 <= i < self.welds.rows.values@.len() ==> self.welds.rows.values@[i].first.patch is None
                && self.welds.rows.values@[i].second.patch is None
    }
}

/// Every weld is saved where none holds a transmission.
proof fn lemma_all_welds_saved(graph: &ConstructionGraph, count: int)
    requires
        0 <= count,
        graph.transmission_welds.values@.len() == 0,
    ensures
        graph.plain_welds(count).len() == count,
    decreases count,
{
    if count > 0 {
        lemma_all_welds_saved(graph, count - 1);
    }
}

/// A construction without transmissions, and without welds on trimmed surfaces,
/// is saved, loaded and saved again as it was, with as many rows.
pub proof fn plain_constructions_are_resaved_as_they_were(
    graph: &ConstructionGraph,
    document: &CreationDocument,
    sockets: Seq<BearingSocket>,
    space: CanonicalSpace,
    checks: &LoadChecks,
    owners: Seq<Option<u32>>,
    loaded: LoadedCreation,
    again: &CreationDocument,
    space_again: CanonicalSpace,
)
    requires
        graph.saveable(),
        graph.plainly_joined(),
        graph.controls_sound(),
        document.captures(graph, sockets, space),
        forall|i: int|
            #![trigger sockets[i]]
            0 <= i < sockets.len() ==> graph.face_live(sockets[i].source),
        checks.covers(document),
        starts_default(valid_frames(checks.frames@)),
        document.load_fault(checks) is None,
        document.rebuilt(checks.frames@, owners, loaded),
        again.captures(&loaded.graph, loaded.sockets@, space_again),
    ensures
        again.agrees_beside_grids(document),
        again.frames@ == frames_back(valid_frames(checks.frames@)).map_values(
            |frame: ConstructionFrame| grid_row(frame),
        ),
        document.grids_kept(checks.frames@) ==> again.agrees(document),
        loaded.name@ == document.name@,
        loaded.graph.frames.editing_frame == ConstructionFrameId(0),
        loaded.graph.parts.rows.keys@.len() == graph.parts.rows.keys@.len(),
        loaded.graph.welds.rows.values@.len() == graph.welds.rows.values@.len(),
        loaded.graph.rigid_links.rows.values@.len() == graph.rigid_links.rows.values@.len(),
        loaded.graph.bearings.rows.values@.len() == graph.bearings.rows.values@.len(),
        loaded.graph.drive_links.rows.values@.len() == graph.drive_links.rows.values@.len(),
        loaded.graph.regions.rows.values@.len() == graph.regions.rows.values@.len(),
{
    let docs = document.parts@;
    let welds = document.welds@;
    let total = graph.welds.rows.keys@.len() as int;
    assert forall|i: int| #![trigger docs[i]] 0 <= i < docs.len() implies parent_in(docs[i])
        is None by {
        assert(!(graph.parts.rows.values@[i].shape is Transmission));
        assert(describes_part(
            graph.parts.rows.values@[i],
            graph.parent_row(graph.parts.rows.keys@[i]),
            docs[i],
        ));
    }
    assert forall|i: int| #![trigger welds[i]] 0 <= i < welds.len() implies !weld_patched(
        welds[i],
    ) by {
        let row = lemma_plain_weld(graph, total, i);
        assert(graph.welds.rows.values@[row].first.patch is None);
    }
    plain_documents_stand_in_loading_order(document);
    assert(graph.ground_whole());
    resaving_gives_the_same_document(
        graph,
        document,
        sockets,
        space,
        checks,
        owners,
        loaded,
        again,
        space_again,
    );
    lemma_all_welds_saved(graph, total);
    lemma_plain_welds_picked(welds, welds.len() as int);
    lemma_plain_rows_in_order(docs, docs.len() as int);
    assert(plain_count(docs) == docs.len());
    assert(attach_welds(docs, docs.len() as int).len() == 0);
}

} // verus!
