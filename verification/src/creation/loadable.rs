//! What a construction has whose document loads.

use vstd::prelude::*;

use super::connect::{
    bearing_mount_faults, chain_faults, feature_faults, feature_ids, first_fault, region_ids,
    socket_faults,
};
use super::doc::{CreationDocument, CreationError};
use super::load::LoadChecks;
use super::replay::{anchored_within, lemma_all_anchored, lemma_faultless_part};
use super::rows::{describes_part, resolved_chain, row_of};
use super::snapshot::{bearing_doc_of, describes_feature, socket_doc_of, CanonicalSpace};
use super::spawn::part_ids;
use super::survival::{ground_untrimmed, lemma_row};
use crate::graph::ConstructionGraph;
use crate::parts::BearingSocket;

verus! {

/// Where there is no earliest fault, no row has one.
proof fn lemma_faultless(faults: Seq<Option<CreationError>>, i: int)
    requires
        first_fault(faults) is None,
        0 <= i < faults.len(),
    ensures
        faults[i] is None,
    decreases faults.len(),
{
    if i < faults.len() - 1 {
        lemma_faultless(faults.drop_last(), i);
    }
}

/// A part whose row stands on something stands on something.
proof fn lemma_stands(
    graph: &ConstructionGraph,
    document: &CreationDocument,
    sockets: Seq<BearingSocket>,
    space: CanonicalSpace,
    row: int,
    steps: nat,
)
    requires
        graph.saveable(),
        document.captures(graph, sockets, space),
        0 <= row < graph.parts.rows.keys@.len(),
        anchored_within(document.parts@, row, steps),
    ensures
        graph.stands_within(graph.parts.rows.keys@[row], steps),
    decreases steps,
{
    let keys = graph.parts.rows.keys@;
    let id = keys[row];
    let spec = graph.parts.rows.values@[row];
    graph.parts.rows.lemma_index(row);
    assert(describes_part(spec, graph.parent_row(id), document.parts@[row]));
    if spec.shape is Transmission {
        let parent = graph.transmission_parents@[id];
        assert(keys.contains(parent));
        lemma_row(keys, parent);
        lemma_stands(
            graph,
            document,
            sockets,
            space,
            row_of(keys, parent) as int,
            (steps - 1) as nat,
        );
    }
}

/// Parts whose rows load can be put back.
proof fn lemma_parts_sound(
    graph: &ConstructionGraph,
    document: &CreationDocument,
    sockets: Seq<BearingSocket>,
    space: CanonicalSpace,
    checks: &LoadChecks,
)
    requires
        graph.saveable(),
        document.captures(graph, sockets, space),
        document.parts_fault(checks.parts@) is None,
    ensures
        graph.parts_sound(),
{
    let docs = document.parts@;
    let keys = graph.parts.rows.keys@;
    let grids = graph.frames.frames.keys@;
    assert forall|i: int| #![trigger keys[i]] 0 <= i < keys.len() implies graph.part_sound(
        keys[i],
    ) by {
        let id = keys[i];
        let spec = graph.parts.rows.values@[i];
        graph.parts.rows.lemma_index(i);
        assert(describes_part(spec, graph.parent_row(id), docs[i]));
        lemma_faultless_part(docs, checks.parts@, document.part_frames@, docs.len() as int, i);
        lemma_all_anchored(docs, docs.len() as int, i);
        let steps = choose|steps: nat| #[trigger] anchored_within(docs, i, steps);
        lemma_stands(graph, document, sockets, space, i, steps);
        if spec.shape is Transmission {
            let parent = graph.transmission_parents@[id];
            assert(keys.contains(parent));
            lemma_row(keys, parent);
            let row = row_of(keys, parent) as int;
            graph.parts.rows.lemma_index(row);
            assert(graph.has_part(parent));
            let own = graph.frame_of_part(id)->0;
            let other = graph.frame_of_part(parent)->0;
            if graph.frames.members@.dom().contains(id) {
                assert(graph.frames.frames@.dom().contains(graph.frames.members@[id]));
            }
            if graph.frames.members@.dom().contains(parent) {
                assert(graph.frames.frames@.dom().contains(graph.frames.members@[parent]));
            }
            assert(grids.contains(own) && grids.contains(other));
            lemma_row(grids, own);
            lemma_row(grids, other);
            assert(document.part_frames@[i] == row_of(grids, graph.frame_of_part(keys[i])->0));
            assert(document.part_frames@[row] == row_of(grids, graph.frame_of_part(keys[row])->0));
            assert(own == other);
        }
    }
}

/// Connections whose rows load can be put back.
proof fn lemma_connections_sound(
    graph: &ConstructionGraph,
    document: &CreationDocument,
    sockets: Seq<BearingSocket>,
    space: CanonicalSpace,
    checks: &LoadChecks,
)
    requires
        graph.saveable(),
        graph.ground_whole(),
        document.captures(graph, sockets, space),
        document.connections_fault(checks.joints@) is None,
    ensures
        graph.connections_sound(),
{
    let parts = graph.parts.rows.keys@;
    let regions = graph.regions.rows.keys@;
    let features = graph.shape_features.rows.keys@;
    let ids = part_ids(document.parts@);
    let joints = graph.bearings.rows.values@;
    let mounts = bearing_mount_faults(document.bearings@, checks.joints@);
    assert forall|i: int| #![trigger joints[i]] 0 <= i < joints.len() implies joints[i].source.owner
        is Part && (joints[i].target is Some ==> joints[i].target->0.owner is Part) by {
        assert(document.bearings@[i] == bearing_doc_of(
            graph.canonical_bearing(space, i),
            parts,
            features,
        ));
        lemma_faultless(mounts, i);
    }
    let faults = feature_faults(
        document.shape_features@,
        ids,
        region_ids(document.regions@.len()),
    );
    let held = graph.shape_features.rows.values@;
    assert forall|i: int| #![trigger held[i]] 0 <= i < held.len() implies graph.feature_sound(i) by {
        let feature = held[i];
        let doc = document.shape_features@[i];
        assert(describes_feature(feature, parts, regions, features, doc));
        lemma_faultless(faults, i);
        let chains = chain_faults(
            doc.targets@,
            ids,
            region_ids(document.regions@.len()),
            feature_ids(i as nat),
        );
        assert forall|k: int| #![trigger feature.targets@[k]]
            0 <= k < feature.targets@.len() && feature.targets@[k].edge.source is Feature implies row_of(
            features,
            feature.targets@[k].edge.source->Feature_0,
        ) < i by {
            lemma_faultless(chains, k);
            assert(resolved_chain(
                doc.targets@[k],
                ids,
                region_ids(document.regions@.len()),
                feature_ids(i as nat),
            ) is Ok);
        }
    }
}

impl ConstructionGraph {
    /// Whether no weld holds a trimmed surface of the ground, which has none.
    pub open spec fn ground_whole(&self) -> bool {
        forall|i: int|
            #![trigger self.welds.rows.values@[i]]
            0 <= i < self.welds.rows.values@.len() ==> ground_untrimmed(
                self.welds.rows.values@[i].first,
            ) && ground_untrimmed(self.welds.rows.values@[i].second)
    }
}

/// A construction with valid settings whose document loads can be put back, and
/// its rings sit on parts.
pub proof fn loadable_constructions_are_sound(
    graph: &ConstructionGraph,
    document: &CreationDocument,
    sockets: Seq<BearingSocket>,
    space: CanonicalSpace,
    checks: &LoadChecks,
)
    requires
        graph.saveable(),
        graph.ground_whole(),
        graph.controls_sound(),
        document.captures(graph, sockets, space),
        checks.covers(document),
        document.load_fault(checks) is None,
    ensures
        graph.sound(),
        forall|i: int|
            #![trigger sockets[i]]
            0 <= i < sockets.len() ==> sockets[i].source.owner is Part,
{
    lemma_parts_sound(graph, document, sockets, space, checks);
    lemma_connections_sound(graph, document, sockets, space, checks);
    let faults = socket_faults(
        document.sockets@,
        checks.rings@,
        part_ids(document.parts@),
        feature_ids(document.shape_features@.len()),
    );
    assert forall|i: int| #![trigger sockets[i]] 0 <= i < sockets.len() implies sockets[i].source.owner
        is Part by {
        assert(document.sockets@[i] == socket_doc_of(
            graph.canonical_socket(space, sockets, i),
            graph.parts.rows.keys@,
            graph.shape_features.rows.keys@,
        ));
        lemma_faultless(faults, i);
    }
}

} // verus!
