//! Incremental construction edit descriptions shared by simulation and rendering.

use vstd::prelude::*;

use crate::frame::{ConstructionFrame, ConstructionFrameId};
use crate::graph::ConstructionGraph;
use crate::ids::{PartId, RegionId, WeldId};
use crate::ordered::{ascending_sequences_agree, lemma_take_next, OrderedMap, OrderedSet};
use crate::parts::{FaceOwner, PartShape, PartSpec, ShapeFeature, SolidOwner, WeldSpec};
use crate::region::ShapeRegion;

verus! {

/// Whether a part belongs to pipe runs.
pub open spec fn is_pipe_shape(shape: PartShape) -> bool {
    shape is Cylinder || shape is PipeBend || shape is PipeJunction
}

/// Whether a part belongs to pipe runs.
fn is_pipe(spec: &PartSpec) -> (pipe: bool)
    ensures
        pipe == is_pipe_shape(spec.shape),
{
    match spec.shape {
        PartShape::Cylinder { .. } => true,
        PartShape::PipeBend { .. } => true,
        PartShape::PipeJunction { .. } => true,
        _ => false,
    }
}

/// Whether two transforms differ in value.
pub open spec fn transforms_differ(
    a: Option<ConstructionFrame>,
    b: Option<ConstructionFrame>,
) -> bool {
    match (a, b) {
        (Some(first), Some(second)) => !first.same_value(second),
        (None, None) => false,
        _ => true,
    }
}

/// Exact graph change owned by one committed construction revision.
#[derive(Debug, PartialEq, Eq)]
pub struct ConstructionEditDelta {
    /// Newly allocated parts.
    pub added: OrderedSet<PartId>,
    /// Parts absent from the replacement graph.
    pub removed: OrderedSet<PartId>,
    /// Stable part identities whose authored geometry changed.
    pub modified: OrderedSet<PartId>,
    /// Parts whose visible geometry depends on changed topology, such as pipe ends.
    pub topology_dependent: OrderedSet<PartId>,
    /// Shape regions whose owned geometry changed or changed ownership.
    pub region_owned_geometry: OrderedSet<RegionId>,
}

/// Whether both maps have a part, and it changed.
pub open spec fn part_changed(
    previous: Map<PartId, PartSpec>,
    current: Map<PartId, PartSpec>,
    part: PartId,
) -> bool {
    previous.dom().contains(part) && current.dom().contains(part) && !previous[part].same_value(
        &current[part],
    )
}

/// Whether a part stayed but the grid under it moved.
pub open spec fn part_moved(
    previous: &ConstructionGraph,
    current: &ConstructionGraph,
    part: PartId,
) -> bool {
    previous.has_part(part) && current.has_part(part) && transforms_differ(
        previous.transform_of(previous.frame_of_part(part)),
        current.transform_of(current.frame_of_part(part)),
    )
}

/// Whether two graphs have the same features in the same order.
pub open spec fn features_agree(previous: &ConstructionGraph, current: &ConstructionGraph) -> bool {
    &&& previous.shape_features.rows.keys@ == current.shape_features.rows.keys@
    &&& forall|i: int|
        #![trigger previous.shape_features.rows.values@[i]]
        0 <= i < previous.shape_features.rows.values@.len()
            ==> previous.shape_features.rows.values@[i].agrees(
            &current.shape_features.rows.values@[i],
        )
}

/// Whether feature `i` treats a chain of `owner`, at target `t`.
pub open spec fn feature_targets(
    features: Seq<ShapeFeature>,
    i: int,
    t: int,
    owner: SolidOwner,
) -> bool {
    0 <= i < features.len() && 0 <= t < features[i].targets@.len() && features[i].targets@[t].owner
        == owner
}

/// Whether some feature treats a chain of `owner`.
pub open spec fn owner_featured(graph: &ConstructionGraph, owner: SolidOwner) -> bool {
    exists|i: int, t: int| #[trigger]
        feature_targets(graph.shape_features.rows.values@, i, t, owner)
}

/// Whether a region appeared, disappeared or changed.
pub open spec fn region_changed(
    previous: Map<RegionId, ShapeRegion>,
    current: Map<RegionId, ShapeRegion>,
    region: RegionId,
) -> bool {
    if previous.dom().contains(region) {
        !current.dom().contains(region) || !previous[region].same_value(&current[region])
    } else {
        current.dom().contains(region)
    }
}

/// The weld whose faces a change touches: the previous one, or a new one.
pub open spec fn changed_weld(
    previous: Map<WeldId, WeldSpec>,
    current: Map<WeldId, WeldSpec>,
    weld: WeldId,
) -> Option<WeldSpec> {
    if previous.dom().contains(weld) {
        if current.dom().contains(weld) && current[weld] == previous[weld] {
            None
        } else {
            Some(previous[weld])
        }
    } else if current.dom().contains(weld) {
        Some(current[weld])
    } else {
        None
    }
}

/// Whether a weld holds a face of `part`.
pub open spec fn weld_holds(weld: WeldSpec, part: PartId) -> bool {
    weld.first.owner == FaceOwner::Part(part) || weld.second.owner == FaceOwner::Part(part)
}

/// Whether a changed weld holds a face of `part`.
pub open spec fn weld_touched(
    previous: &ConstructionGraph,
    current: &ConstructionGraph,
    part: PartId,
) -> bool {
    exists|weld: WeldId|
        (#[trigger] changed_weld(previous.welds.rows@, current.welds.rows@, weld)) matches Some(spec)
            && weld_holds(spec, part)
}

/// Whether a graph has a part that belongs to pipe runs.
pub open spec fn has_pipe(graph: &ConstructionGraph) -> bool {
    exists|part: PartId| #[trigger] graph.has_part(part) && is_pipe_shape(
        graph.parts.rows@[part].shape,
    )
}

/// Whether a part belongs to pipe runs, as it was, or as it is if it is new.
pub open spec fn pipe_in_either(
    previous: &ConstructionGraph,
    current: &ConstructionGraph,
    part: PartId,
) -> bool {
    if previous.has_part(part) {
        is_pipe_shape(previous.parts.rows@[part].shape)
    } else {
        current.has_part(part) && is_pipe_shape(current.parts.rows@[part].shape)
    }
}

/// Whether a weld change reaches a pipe run.
pub open spec fn pipes_touched(previous: &ConstructionGraph, current: &ConstructionGraph) -> bool {
    exists|part: PartId| #[trigger] weld_touched(previous, current, part) && pipe_in_either(
        previous,
        current,
        part,
    )
}

impl ConstructionEditDelta {
    /// Members stand in order.
    pub open spec fn wf(&self) -> bool {
        &&& self.added.wf()
        &&& self.removed.wf()
        &&& self.modified.wf()
        &&& self.topology_dependent.wf()
        &&& self.region_owned_geometry.wf()
    }

    /// Whether this is the geometry portion of a change of parts.
    pub open spec fn describes_parts(
        &self,
        previous: Map<PartId, PartSpec>,
        current: Map<PartId, PartSpec>,
    ) -> bool {
        &&& forall|part: PartId| #[trigger]
            self.added.holds(part) <==> current.dom().contains(part) && !previous.dom().contains(
                part,
            )
        &&& forall|part: PartId| #[trigger]
            self.removed.holds(part) <==> previous.dom().contains(part) && !current.dom().contains(
                part,
            )
        &&& forall|part: PartId| #[trigger]
            self.modified.holds(part) <==> part_changed(previous, current, part)
    }

    /// Whether this is the change from one graph to another.
    pub open spec fn describes(
        &self,
        previous: &ConstructionGraph,
        current: &ConstructionGraph,
    ) -> bool {
        let featured = !features_agree(previous, current);
        let piped = has_pipe(previous) || has_pipe(current);
        &&& forall|part: PartId| #[trigger]
            self.added.holds(part) <==> current.has_part(part) && !previous.has_part(part)
        &&& forall|part: PartId| #[trigger]
            self.removed.holds(part) <==> previous.has_part(part) && !current.has_part(part)
        &&& forall|part: PartId| #[trigger]
            self.modified.holds(part) <==> {
                ||| part_changed(previous.parts.rows@, current.parts.rows@, part)
                ||| part_moved(previous, current, part)
                ||| featured && owner_featured(previous, SolidOwner::Part(part))
                ||| featured && owner_featured(current, SolidOwner::Part(part))
            }
        &&& forall|part: PartId| #[trigger]
            self.topology_dependent.holds(part) <==> {
                ||| piped && weld_touched(previous, current, part)
                ||| piped && pipes_touched(previous, current) && current.has_part(part)
                    && is_pipe_shape(current.parts.rows@[part].shape)
            }
        &&& forall|region: RegionId| #[trigger]
            self.region_owned_geometry.holds(region) <==> {
                ||| exists|part: PartId| #[trigger]
                    part_moved(previous, current, part) && current.region_owning(part) == Some(
                        region,
                    )
                ||| featured && owner_featured(previous, SolidOwner::Region(region))
                ||| featured && owner_featured(current, SolidOwner::Region(region))
                ||| region_changed(previous.regions.rows@, current.regions.rows@, region)
            }
    }

    /// Computes the geometry portion from compact part snapshots.
    pub fn between_parts(
        previous: &OrderedMap<PartId, PartSpec>,
        current: &OrderedMap<PartId, PartSpec>,
    ) -> (delta: Self)
        requires
            previous.wf(),
            current.wf(),
        ensures
            delta.wf(),
            delta.describes_parts(previous@, current@),
            delta.topology_dependent@.len() == 0,
            delta.region_owned_geometry@.len() == 0,
    {
        let mut added: OrderedSet<PartId> = OrderedSet::new();
        let mut modified: OrderedSet<PartId> = OrderedSet::new();
        let mut i: usize = 0;
        while i < current.keys.len()
            invariant
                previous.wf(),
                current.wf(),
                added.wf(),
                modified.wf(),
                i <= current.keys@.len(),
                forall|part: PartId| #[trigger]
                    added.holds(part) <==> current.keys@.take(i as int).contains(part)
                        && !previous@.dom().contains(part),
                forall|part: PartId| #[trigger]
                    modified.holds(part) <==> current.keys@.take(i as int).contains(part)
                        && part_changed(previous@, current@, part),
            decreases current.keys@.len() - i,
        {
            let part: PartId = current.keys[i];
            proof {
                current.lemma_index(i as int);
                lemma_take_next(current.keys@, i as int);
            }
            match previous.get(part) {
                Some(spec) => {
                    if !spec.same(&current.values[i]) {
                        modified.insert(part);
                    }
                },
                None => {
                    added.insert(part);
                },
            }
            i += 1;
        }
        let mut removed: OrderedSet<PartId> = OrderedSet::new();
        let mut j: usize = 0;
        while j < previous.keys.len()
            invariant
                previous.wf(),
                current.wf(),
                removed.wf(),
                j <= previous.keys@.len(),
                forall|part: PartId| #[trigger]
                    removed.holds(part) <==> previous.keys@.take(j as int).contains(part)
                        && !current@.dom().contains(part),
            decreases previous.keys@.len() - j,
        {
            let part: PartId = previous.keys[j];
            proof {
                lemma_take_next(previous.keys@, j as int);
            }
            if !current.contains_key(part) {
                removed.insert(part);
            }
            j += 1;
        }
        assert(current.keys@.take(i as int) =~= current.keys@);
        assert(previous.keys@.take(j as int) =~= previous.keys@);
        ConstructionEditDelta {
            added,
            removed,
            modified,
            topology_dependent: OrderedSet::new(),
            region_owned_geometry: OrderedSet::new(),
        }
    }

    /// Every part whose foundation, geometry page, or dependent page may change.
    pub fn affected_parts(&self) -> (parts: OrderedSet<PartId>)
        requires
            self.wf(),
        ensures
            parts.wf(),
            forall|part: PartId| #[trigger]
                parts.holds(part) <==> self.added.holds(part) || self.removed.holds(part)
                    || self.modified.holds(part) || self.topology_dependent.holds(part),
    {
        let mut parts: OrderedSet<PartId> = OrderedSet::new();
        extend(&mut parts, &self.added);
        extend(&mut parts, &self.removed);
        extend(&mut parts, &self.modified);
        extend(&mut parts, &self.topology_dependent);
        parts
    }

    /// True when no observable construction ownership changed.
    pub fn is_empty(&self) -> (empty: bool)
        ensures
            empty == (self.added@.len() == 0 && self.removed@.len() == 0 && self.modified@.len() == 0
                && self.topology_dependent@.len() == 0 && self.region_owned_geometry@.len() == 0),
    {
        self.added.is_empty() && self.removed.is_empty() && self.modified.is_empty()
            && self.topology_dependent.is_empty() && self.region_owned_geometry.is_empty()
    }
}

/// Adds every member of `more`.
fn extend(parts: &mut OrderedSet<PartId>, more: &OrderedSet<PartId>)
    requires
        old(parts).wf(),
    ensures
        final(parts).wf(),
        forall|part: PartId| #[trigger]
            final(parts).holds(part) <==> old(parts).holds(part) || more.holds(part),
{
    let mut i: usize = 0;
    while i < more.len()
        invariant
            parts.wf(),
            i <= more@.len(),
            forall|part: PartId| #[trigger]
                parts.holds(part) <==> old(parts).holds(part) || more@.take(i as int).contains(part),
        decreases more@.len() - i,
    {
        let part: PartId = more.item(i);
        proof {
            lemma_take_next(more@, i as int);
        }
        parts.insert(part);
        i += 1;
    }
    assert(more@.take(i as int) =~= more@);
}

/// Whether a listed part moved and belongs to `region`.
spec fn moved_owner(
    previous: &ConstructionGraph,
    current: &ConstructionGraph,
    parts: Seq<PartId>,
    region: RegionId,
) -> bool {
    exists|part: PartId|
        parts.contains(part) && #[trigger] part_moved(previous, current, part)
            && current.region_owning(part) == Some(region)
}

/// Whether two transforms differ in value.
fn differ(a: Option<ConstructionFrame>, b: Option<ConstructionFrame>) -> (differ: bool)
    ensures
        differ == transforms_differ(a, b),
{
    match (a, b) {
        (Some(first), Some(second)) => !first.equal(second),
        (None, None) => false,
        _ => true,
    }
}

/// Adds the parts whose grid moved, and the regions they belong to.
fn add_moved(
    previous: &ConstructionGraph,
    current: &ConstructionGraph,
    modified: &mut OrderedSet<PartId>,
    regions: &mut OrderedSet<RegionId>,
)
    requires
        previous.wf(),
        current.wf(),
        old(modified).wf(),
        old(regions).wf(),
    ensures
        final(modified).wf(),
        final(regions).wf(),
        forall|part: PartId| #[trigger]
            final(modified).holds(part) <==> old(modified).holds(part) || part_moved(
                previous,
                current,
                part,
            ),
        forall|region: RegionId| #[trigger]
            final(regions).holds(region) <==> old(regions).holds(region) || exists|part: PartId| #[trigger]
                part_moved(previous, current, part) && current.region_owning(part) == Some(region),
{
    let ghost keys = current.parts.rows.keys@;
    let mut i: usize = 0;
    while i < current.parts.rows.keys.len()
        invariant
            previous.wf(),
            current.wf(),
            modified.wf(),
            regions.wf(),
            keys == current.parts.rows.keys@,
            i <= keys.len(),
            forall|part: PartId| #[trigger]
                modified.holds(part) <==> old(modified).holds(part) || (keys.take(
                    i as int,
                ).contains(part) && part_moved(previous, current, part)),
            forall|region: RegionId| #[trigger]
                regions.holds(region) <==> old(regions).holds(region) || moved_owner(
                    previous,
                    current,
                    keys.take(i as int),
                    region,
                ),
        decreases keys.len() - i,
    {
        let part: PartId = current.parts.rows.keys[i];
        let ghost regions_before = *regions;
        proof {
            current.parts.rows.lemma_index(i as int);
            lemma_take_next(keys, i as int);
        }
        if previous.part(part).is_some() && differ(
            previous.part_frame(part),
            current.part_frame(part),
        ) {
            assert(part_moved(previous, current, part));
            modified.insert(part);
            if let Some(region) = current.region_of(part) {
                regions.insert(region);
            }
        }
        proof {
            let shorter = keys.take(i as int);
            let longer = keys.take(i + 1);
            assert forall|region: RegionId| #[trigger] regions.holds(region) <==> old(
                regions).holds(region) || moved_owner(previous, current, longer, region) by {
                assert(regions_before.holds(region) <==> old(regions).holds(region) || moved_owner(
                    previous,
                    current,
                    shorter,
                    region,
                ));
                if moved_owner(previous, current, longer, region) {
                    let p = choose|p: PartId|
                        longer.contains(p) && #[trigger] part_moved(previous, current, p)
                            && current.region_owning(p) == Some(region);
                    assert(shorter.contains(p) || p == part);
                }
                if moved_owner(previous, current, shorter, region) {
                    let p = choose|p: PartId|
                        shorter.contains(p) && #[trigger] part_moved(previous, current, p)
                            && current.region_owning(p) == Some(region);
                    assert(longer.contains(p));
                }
                if part_moved(previous, current, part) && current.region_owning(part) == Some(
                    region,
                ) {
                    assert(longer.contains(part));
                }
            }
        }
        i += 1;
    }
    proof {
        assert(keys.take(i as int) =~= keys);
        assert forall|region: RegionId| #[trigger] moved_owner(previous, current, keys, region)
            <==> exists|part: PartId| #[trigger]
            part_moved(previous, current, part) && current.region_owning(part) == Some(region) by {
            if exists|part: PartId| #[trigger]
                part_moved(previous, current, part) && current.region_owning(part) == Some(region) {
                let p = choose|p: PartId| #[trigger]
                    part_moved(previous, current, p) && current.region_owning(p) == Some(region);
                assert(current.has_part(p));
                assert(keys.contains(p));
            }
        }
    }
}

/// Whether two graphs have the same features in the same order.
fn same_features(previous: &ConstructionGraph, current: &ConstructionGraph) -> (same: bool)
    requires
        previous.wf(),
        current.wf(),
    ensures
        same == features_agree(previous, current),
{
    let a = &previous.shape_features.rows;
    let b = &current.shape_features.rows;
    if a.keys.len() != b.keys.len() {
        return false;
    }
    let mut i: usize = 0;
    while i < a.keys.len()
        invariant
            a.wf(),
            b.wf(),
            *a == previous.shape_features.rows,
            *b == current.shape_features.rows,
            i <= a.keys@.len(),
            a.keys@.len() == b.keys@.len(),
            a.keys@.take(i as int) =~= b.keys@.take(i as int),
            forall|k: int|
                #![trigger a.values@[k]]
                0 <= k < i ==> a.values@[k].agrees(&b.values@[k]),
        decreases a.keys@.len() - i,
    {
        if a.keys[i] != b.keys[i] {
            assert(a.keys@[i as int] != b.keys@[i as int]);
            return false;
        }
        if !a.values[i].same(&b.values[i]) {
            assert(!a.values@[i as int].agrees(&b.values@[i as int]));
            return false;
        }
        i += 1;
    }
    assert(a.keys@.take(i as int) =~= a.keys@);
    assert(b.keys@.take(i as int) =~= b.keys@);
    true
}

/// Whether a target before target `t` of feature `i` treats a chain of `owner`.
spec fn targeted_before(features: Seq<ShapeFeature>, i: int, t: int, owner: SolidOwner) -> bool {
    exists|j: int, u: int| #[trigger]
        feature_targets(features, j, u, owner) && (j < i || (j == i && u < t))
}

/// Adds the owners of every chain that a feature treats.
fn add_featured(
    graph: &ConstructionGraph,
    modified: &mut OrderedSet<PartId>,
    regions: &mut OrderedSet<RegionId>,
)
    requires
        old(modified).wf(),
        old(regions).wf(),
    ensures
        final(modified).wf(),
        final(regions).wf(),
        forall|part: PartId| #[trigger]
            final(modified).holds(part) <==> old(modified).holds(part) || owner_featured(
                graph,
                SolidOwner::Part(part),
            ),
        forall|region: RegionId| #[trigger]
            final(regions).holds(region) <==> old(regions).holds(region) || owner_featured(
                graph,
                SolidOwner::Region(region),
            ),
{
    let ghost features = graph.shape_features.rows.values@;
    let mut i: usize = 0;
    while i < graph.shape_features.rows.values.len()
        invariant
            modified.wf(),
            regions.wf(),
            features == graph.shape_features.rows.values@,
            i <= features.len(),
            forall|part: PartId| #[trigger]
                modified.holds(part) <==> old(modified).holds(part) || targeted_before(
                    features,
                    i as int,
                    0,
                    SolidOwner::Part(part),
                ),
            forall|region: RegionId| #[trigger]
                regions.holds(region) <==> old(regions).holds(region) || targeted_before(
                    features,
                    i as int,
                    0,
                    SolidOwner::Region(region),
                ),
        decreases features.len() - i,
    {
        let feature: &ShapeFeature = &graph.shape_features.rows.values[i];
        let mut t: usize = 0;
        while t < feature.targets.len()
            invariant
                modified.wf(),
                regions.wf(),
                i < features.len(),
                *feature == features[i as int],
                t <= feature.targets@.len(),
                forall|part: PartId| #[trigger]
                    modified.holds(part) <==> old(modified).holds(part) || targeted_before(
                        features,
                        i as int,
                        t as int,
                        SolidOwner::Part(part),
                    ),
                forall|region: RegionId| #[trigger]
                    regions.holds(region) <==> old(regions).holds(region) || targeted_before(
                        features,
                        i as int,
                        t as int,
                        SolidOwner::Region(region),
                    ),
            decreases feature.targets@.len() - t,
        {
            let owner: SolidOwner = feature.targets[t].owner;
            proof {
                assert forall|other: SolidOwner| #[trigger] targeted_before(
                    features,
                    i as int,
                    t + 1,
                    other,
                ) <==> targeted_before(features, i as int, t as int, other) || other == owner by {
                    lemma_next_target(features, i as int, t as int, other);
                }
            }
            match owner {
                SolidOwner::Part(part) => {
                    modified.insert(part);
                },
                SolidOwner::Region(region) => {
                    regions.insert(region);
                },
            }
            t += 1;
        }
        proof {
            assert forall|other: SolidOwner| #[trigger] targeted_before(
                features,
                i + 1,
                0,
                other,
            ) <==> targeted_before(features, i as int, t as int, other) by {
                lemma_next_feature(features, i as int, other);
            }
        }
        i += 1;
    }
    proof {
        assert forall|other: SolidOwner| #[trigger] targeted_before(features, i as int, 0, other)
            <==> owner_featured(graph, other) by {
            if owner_featured(graph, other) {
                let (j, u) = choose|j: int, u: int| #[trigger] feature_targets(features, j, u, other);
                assert(feature_targets(features, j, u, other) && j < i);
            }
            if targeted_before(features, i as int, 0, other) {
                let (j, u) = choose|j: int, u: int| #[trigger]
                    feature_targets(features, j, u, other) && (j < i || (j == i && u < 0));
                assert(feature_targets(features, j, u, other));
            }
        }
    }
}

/// Looking at one more target finds its owner.
proof fn lemma_next_target(features: Seq<ShapeFeature>, i: int, t: int, owner: SolidOwner)
    requires
        0 <= i < features.len(),
        0 <= t < features[i].targets@.len(),
    ensures
        targeted_before(features, i, t + 1, owner) <==> targeted_before(features, i, t, owner)
            || features[i].targets@[t].owner == owner,
{
    if targeted_before(features, i, t + 1, owner) {
        let (j, u) = choose|j: int, u: int| #[trigger]
            feature_targets(features, j, u, owner) && (j < i || (j == i && u < t + 1));
        assert(feature_targets(features, j, u, owner));
    }
    if targeted_before(features, i, t, owner) {
        let (j, u) = choose|j: int, u: int| #[trigger]
            feature_targets(features, j, u, owner) && (j < i || (j == i && u < t));
        assert(feature_targets(features, j, u, owner) && (j < i || (j == i && u < t + 1)));
    }
    if features[i].targets@[t].owner == owner {
        assert(feature_targets(features, i, t, owner));
    }
}

/// After a feature's last target comes the next feature.
proof fn lemma_next_feature(features: Seq<ShapeFeature>, i: int, owner: SolidOwner)
    requires
        0 <= i < features.len(),
    ensures
        targeted_before(features, i + 1, 0, owner) <==> targeted_before(
            features,
            i,
            features[i].targets@.len() as int,
            owner,
        ),
{
    let last = features[i].targets@.len() as int;
    if targeted_before(features, i + 1, 0, owner) {
        let (j, u) = choose|j: int, u: int| #[trigger]
            feature_targets(features, j, u, owner) && (j < i + 1 || (j == i + 1 && u < 0));
        assert(feature_targets(features, j, u, owner) && (j < i || (j == i && u < last)));
    }
    if targeted_before(features, i, last, owner) {
        let (j, u) = choose|j: int, u: int| #[trigger]
            feature_targets(features, j, u, owner) && (j < i || (j == i && u < last));
        assert(feature_targets(features, j, u, owner) && j < i + 1);
    }
}

/// Adds the regions that appeared, disappeared or changed.
fn add_changed_regions(
    previous: &ConstructionGraph,
    current: &ConstructionGraph,
    regions: &mut OrderedSet<RegionId>,
)
    requires
        previous.wf(),
        current.wf(),
        old(regions).wf(),
    ensures
        final(regions).wf(),
        forall|region: RegionId| #[trigger]
            final(regions).holds(region) <==> old(regions).holds(region) || region_changed(
                previous.regions.rows@,
                current.regions.rows@,
                region,
            ),
{
    let a = &previous.regions.rows;
    let b = &current.regions.rows;
    let mut i: usize = 0;
    while i < a.keys.len()
        invariant
            a.wf(),
            b.wf(),
            regions.wf(),
            i <= a.keys@.len(),
            forall|region: RegionId| #[trigger]
                regions.holds(region) <==> old(regions).holds(region) || (a.keys@.take(
                    i as int,
                ).contains(region) && region_changed(a@, b@, region)),
        decreases a.keys@.len() - i,
    {
        let region: RegionId = a.keys[i];
        proof {
            a.lemma_index(i as int);
            lemma_take_next(a.keys@, i as int);
        }
        let same: bool = match b.get(region) {
            Some(other) => a.values[i].same(other),
            None => false,
        };
        if !same {
            regions.insert(region);
        }
        i += 1;
    }
    assert(a.keys@.take(i as int) =~= a.keys@);
    let ghost middle = *regions;
    let mut k: usize = 0;
    while k < b.keys.len()
        invariant
            a.wf(),
            b.wf(),
            regions.wf(),
            k <= b.keys@.len(),
            forall|region: RegionId| #[trigger]
                regions.holds(region) <==> middle.holds(region) || (b.keys@.take(
                    k as int,
                ).contains(region) && !a@.dom().contains(region)),
        decreases b.keys@.len() - k,
    {
        let region: RegionId = b.keys[k];
        proof {
            lemma_take_next(b.keys@, k as int);
        }
        if !a.contains_key(region) {
            regions.insert(region);
        }
        k += 1;
    }
    assert(b.keys@.take(k as int) =~= b.keys@);
    proof {
        assert forall|region: RegionId| #[trigger] regions.holds(region) <==> old(regions).holds(
            region,
        ) || region_changed(a@, b@, region) by {
            assert(middle.holds(region) <==> old(regions).holds(region) || (a.keys@.contains(region)
                && region_changed(a@, b@, region)));
        }
    }
}

/// Whether a graph has a part that belongs to pipe runs.
fn any_pipe(graph: &ConstructionGraph) -> (found: bool)
    requires
        graph.wf(),
    ensures
        found == has_pipe(graph),
{
    let rows = &graph.parts.rows;
    let mut i: usize = 0;
    while i < rows.values.len()
        invariant
            rows.wf(),
            *rows == graph.parts.rows,
            i <= rows.values@.len(),
            forall|k: int|
                #![trigger rows.values@[k]]
                0 <= k < i ==> !is_pipe_shape(rows.values@[k].shape),
        decreases rows.values@.len() - i,
    {
        if is_pipe(&rows.values[i]) {
            proof {
                rows.lemma_index(i as int);
                assert(graph.has_part(rows.keys@[i as int]));
            }
            return true;
        }
        i += 1;
    }
    proof {
        assert forall|part: PartId| #[trigger] graph.has_part(part) implies !is_pipe_shape(
            graph.parts.rows@[part].shape,
        ) by {
            let k = rows.keys@.index_of(part);
            assert(rows.values@[k] == graph.parts.rows@[part]);
        }
    }
    false
}

/// Whether one of the listed welds changed and holds a face of `part`.
spec fn touched_by(
    previous: &ConstructionGraph,
    current: &ConstructionGraph,
    welds: Seq<WeldId>,
    part: PartId,
) -> bool {
    exists|weld: WeldId|
        welds.contains(weld) && ((#[trigger] changed_weld(
            previous.welds.rows@,
            current.welds.rows@,
            weld,
        )) matches Some(spec) && weld_holds(spec, part))
}

/// Looking at one more weld finds the parts it holds.
proof fn lemma_touched_next(
    previous: &ConstructionGraph,
    current: &ConstructionGraph,
    welds: Seq<WeldId>,
    i: int,
    part: PartId,
)
    requires
        0 <= i < welds.len(),
    ensures
        touched_by(previous, current, welds.take(i + 1), part) <==> touched_by(
            previous,
            current,
            welds.take(i),
            part,
        ) || (changed_weld(previous.welds.rows@, current.welds.rows@, welds[i]) matches Some(spec)
            && weld_holds(spec, part)),
{
    lemma_take_next(welds, i);
    let a = previous.welds.rows@;
    let b = current.welds.rows@;
    if touched_by(previous, current, welds.take(i + 1), part) {
        let weld = choose|weld: WeldId|
            welds.take(i + 1).contains(weld) && ((#[trigger] changed_weld(a, b, weld)) matches Some(spec)
                && weld_holds(spec, part));
        assert(welds.take(i).contains(weld) || weld == welds[i]);
    }
    if touched_by(previous, current, welds.take(i), part) {
        let weld = choose|weld: WeldId|
            welds.take(i).contains(weld) && ((#[trigger] changed_weld(a, b, weld)) matches Some(spec)
                && weld_holds(spec, part));
        assert(welds.take(i + 1).contains(weld));
    }
    assert(welds.take(i + 1).contains(welds[i]));
}

/// Adds the parts that a weld holds.
fn add_held(weld: &WeldSpec, parts: &mut OrderedSet<PartId>)
    requires
        old(parts).wf(),
    ensures
        final(parts).wf(),
        forall|part: PartId| #[trigger]
            final(parts).holds(part) <==> old(parts).holds(part) || weld_holds(*weld, part),
{
    if let FaceOwner::Part(part) = weld.first.owner {
        parts.insert(part);
    }
    if let FaceOwner::Part(part) = weld.second.owner {
        parts.insert(part);
    }
}

/// The parts that changed welds hold.
fn touched_parts(previous: &ConstructionGraph, current: &ConstructionGraph) -> (parts: OrderedSet<
    PartId,
>)
    requires
        previous.wf(),
        current.wf(),
    ensures
        parts.wf(),
        forall|part: PartId| #[trigger]
            parts.holds(part) <==> weld_touched(previous, current, part),
{
    let mut parts: OrderedSet<PartId> = OrderedSet::new();
    let a = &previous.welds.rows;
    let b = &current.welds.rows;
    let mut i: usize = 0;
    while i < a.keys.len()
        invariant
            a.wf(),
            b.wf(),
            *a == previous.welds.rows,
            *b == current.welds.rows,
            parts.wf(),
            i <= a.keys@.len(),
            forall|part: PartId| #[trigger]
                parts.holds(part) <==> touched_by(
                    previous,
                    current,
                    a.keys@.take(i as int),
                    part,
                ),
        decreases a.keys@.len() - i,
    {
        let weld: WeldId = a.keys[i];
        let ghost before = parts;
        proof {
            a.lemma_index(i as int);
        }
        let same: bool = match b.get(weld) {
            Some(other) => *other == a.values[i],
            None => false,
        };
        if !same {
            add_held(&a.values[i], &mut parts);
        }
        proof {
            assert forall|part: PartId| #[trigger] parts.holds(part) <==> touched_by(
                previous,
                current,
                a.keys@.take(i + 1),
                part,
            ) by {
                lemma_touched_next(previous, current, a.keys@, i as int, part);
                assert(before.holds(part) <==> touched_by(
                    previous,
                    current,
                    a.keys@.take(i as int),
                    part,
                ));
            }
        }
        i += 1;
    }
    assert(a.keys@.take(i as int) =~= a.keys@);
    let ghost middle = parts;
    let mut k: usize = 0;
    assert(forall|part: PartId| !touched_by(previous, current, b.keys@.take(0), part));
    while k < b.keys.len()
        invariant
            a.wf(),
            b.wf(),
            *a == previous.welds.rows,
            *b == current.welds.rows,
            parts.wf(),
            k <= b.keys@.len(),
            forall|part: PartId| #[trigger]
                middle.holds(part) <==> touched_by(previous, current, a.keys@, part),
            forall|part: PartId| #[trigger]
                parts.holds(part) <==> middle.holds(part) || touched_by(
                    previous,
                    current,
                    b.keys@.take(k as int),
                    part,
                ),
        decreases b.keys@.len() - k,
    {
        let weld: WeldId = b.keys[k];
        let ghost before = parts;
        proof {
            b.lemma_index(k as int);
        }
        if !a.contains_key(weld) {
            add_held(&b.values[k], &mut parts);
        }
        proof {
            assert forall|part: PartId| #[trigger] parts.holds(part) <==> middle.holds(part)
                || touched_by(previous, current, b.keys@.take(k + 1), part) by {
                lemma_touched_next(previous, current, b.keys@, k as int, part);
                assert(before.holds(part) <==> middle.holds(part) || touched_by(
                    previous,
                    current,
                    b.keys@.take(k as int),
                    part,
                ));
                if a@.dom().contains(weld) {
                    if changed_weld(a@, b@, weld) matches Some(spec) && weld_holds(spec, part) {
                        assert(a.keys@.contains(weld));
                        assert(touched_by(previous, current, a.keys@, part));
                        assert(middle.holds(part));
                    }
                }
            }
        }
        k += 1;
    }
    assert(b.keys@.take(k as int) =~= b.keys@);
    proof {
        assert forall|part: PartId| #[trigger] parts.holds(part) <==> weld_touched(
            previous,
            current,
            part,
        ) by {
            if weld_touched(previous, current, part) {
                let weld = choose|weld: WeldId|
                    (#[trigger] changed_weld(a@, b@, weld)) matches Some(spec) && weld_holds(
                        spec,
                        part,
                    );
                if a@.dom().contains(weld) {
                    assert(a.keys@.contains(weld));
                    assert(touched_by(previous, current, a.keys@, part));
                    assert(middle.holds(part));
                } else {
                    assert(b.keys@.contains(weld));
                    assert(touched_by(previous, current, b.keys@, part));
                }
            }
            if middle.holds(part) {
                assert(touched_by(previous, current, a.keys@, part));
            }
        }
    }
    parts
}

/// Whether one of the listed parts belongs to pipe runs.
fn any_touched_pipe(
    previous: &ConstructionGraph,
    current: &ConstructionGraph,
    parts: &OrderedSet<PartId>,
) -> (found: bool)
    requires
        previous.wf(),
        current.wf(),
    ensures
        found == exists|part: PartId| #[trigger]
            parts.holds(part) && pipe_in_either(previous, current, part),
{
    let mut i: usize = 0;
    while i < parts.len()
        invariant
            previous.wf(),
            current.wf(),
            i <= parts@.len(),
            forall|k: int|
                #![trigger parts@[k]]
                0 <= k < i ==> !pipe_in_either(previous, current, parts@[k]),
        decreases parts@.len() - i,
    {
        let part: PartId = parts.item(i);
        let pipe: bool = match previous.part(part) {
            Some(spec) => is_pipe(spec),
            None => match current.part(part) {
                Some(spec) => is_pipe(spec),
                None => false,
            },
        };
        if pipe {
            assert(parts@[i as int] == part);
            assert(parts.holds(part));
            return true;
        }
        i += 1;
    }
    proof {
        assert forall|part: PartId| #[trigger] parts.holds(part) implies !pipe_in_either(
            previous,
            current,
            part,
        ) by {
            let k = parts@.index_of(part);
            assert(parts@[k] == part);
        }
    }
    false
}

/// Adds every part that belongs to pipe runs.
fn add_pipes(graph: &ConstructionGraph, parts: &mut OrderedSet<PartId>)
    requires
        graph.wf(),
        old(parts).wf(),
    ensures
        final(parts).wf(),
        forall|part: PartId| #[trigger]
            final(parts).holds(part) <==> old(parts).holds(part) || (graph.has_part(part)
                && is_pipe_shape(graph.parts.rows@[part].shape)),
{
    let rows = &graph.parts.rows;
    let mut i: usize = 0;
    while i < rows.keys.len()
        invariant
            rows.wf(),
            *rows == graph.parts.rows,
            parts.wf(),
            i <= rows.keys@.len(),
            forall|part: PartId| #[trigger]
                parts.holds(part) <==> old(parts).holds(part) || (rows.keys@.take(
                    i as int,
                ).contains(part) && is_pipe_shape(rows@[part].shape)),
        decreases rows.keys@.len() - i,
    {
        proof {
            rows.lemma_index(i as int);
            lemma_take_next(rows.keys@, i as int);
        }
        if is_pipe(&rows.values[i]) {
            parts.insert(rows.keys[i]);
        }
        i += 1;
    }
    assert(rows.keys@.take(i as int) =~= rows.keys@);
}

impl ConstructionEditDelta {
    /// Computes the stable change between two graph revisions.
    pub fn between(previous: &ConstructionGraph, current: &ConstructionGraph) -> (delta: Self)
        requires
            previous.wf(),
            current.wf(),
        ensures
            delta.wf(),
            delta.describes(previous, current),
    {
        let parts = Self::between_parts(&previous.parts.rows, &current.parts.rows);
        let added: OrderedSet<PartId> = parts.added;
        let removed: OrderedSet<PartId> = parts.removed;
        let mut modified: OrderedSet<PartId> = parts.modified;
        let mut regions: OrderedSet<RegionId> = OrderedSet::new();
        add_moved(previous, current, &mut modified, &mut regions);
        if !same_features(previous, current) {
            add_featured(previous, &mut modified, &mut regions);
            add_featured(current, &mut modified, &mut regions);
        }
        add_changed_regions(previous, current, &mut regions);
        let mut dependent: OrderedSet<PartId> = OrderedSet::new();
        if any_pipe(previous) || any_pipe(current) {
            dependent = touched_parts(previous, current);
            proof {
                if pipes_touched(previous, current) {
                    let part = choose|part: PartId| #[trigger]
                        weld_touched(previous, current, part) && pipe_in_either(
                            previous,
                            current,
                            part,
                        );
                    assert(dependent.holds(part));
                }
                if exists|part: PartId| #[trigger]
                    dependent.holds(part) && pipe_in_either(previous, current, part) {
                    let part = choose|part: PartId| #[trigger]
                        dependent.holds(part) && pipe_in_either(previous, current, part);
                    assert(weld_touched(previous, current, part));
                }
            }
            // A weld can change cap visibility and texture phase throughout one
            // connected pipe run, so every pipe is rebuilt.
            if any_touched_pipe(previous, current, &dependent) {
                add_pipes(current, &mut dependent);
            }
        }
        ConstructionEditDelta {
            added,
            removed,
            modified,
            topology_dependent: dependent,
            region_owned_geometry: regions,
        }
    }
}

/// Whether every part, region and grid agrees with itself in value: none holds
/// a pattern that encodes no number.
pub open spec fn holds_numbers(graph: &ConstructionGraph) -> bool {
    &&& forall|part: PartId| #[trigger]
        graph.parts.rows@.dom().contains(part) ==> graph.parts.rows@[part].same_value(
            &graph.parts.rows@[part],
        )
    &&& forall|region: RegionId| #[trigger]
        graph.regions.rows@.dom().contains(region) ==> graph.regions.rows@[region].same_value(
            &graph.regions.rows@[region],
        )
    &&& forall|frame: ConstructionFrameId| #[trigger]
        graph.frames.frames@.dom().contains(frame) ==> graph.frames.frames@[frame].same_value(
            graph.frames.frames@[frame],
        )
}

/// A construction compared with itself has changed nowhere, as long as it holds
/// numbers.
pub proof fn unchanged_constructions_have_no_delta(
    graph: &ConstructionGraph,
    delta: &ConstructionEditDelta,
)
    requires
        graph.wf(),
        delta.describes(graph, graph),
        holds_numbers(graph),
    ensures
        delta.added@.len() == 0,
        delta.removed@.len() == 0,
        delta.modified@.len() == 0,
        delta.topology_dependent@.len() == 0,
        delta.region_owned_geometry@.len() == 0,
{
    assert(features_agree(graph, graph));
    assert forall|part: PartId| !#[trigger] part_moved(graph, graph, part) by {
        if graph.has_part(part) {
            let frame = graph.frame_of_part(part)->0;
            if graph.frames.members@.dom().contains(part) {
                assert(graph.frames.frames@.dom().contains(graph.frames.members@[part]));
            }
            assert(graph.frames.frames@.dom().contains(frame));
        }
    }
    assert forall|part: PartId| !#[trigger] weld_touched(graph, graph, part) by {
        assert forall|weld: WeldId| (#[trigger] changed_weld(
            graph.welds.rows@,
            graph.welds.rows@,
            weld,
        )) is None by {}
    }
    if delta.added@.len() > 0 {
        assert(delta.added.holds(delta.added@[0]));
    }
    if delta.removed@.len() > 0 {
        assert(delta.removed.holds(delta.removed@[0]));
    }
    if delta.modified@.len() > 0 {
        assert(delta.modified.holds(delta.modified@[0]));
    }
    if delta.topology_dependent@.len() > 0 {
        assert(delta.topology_dependent.holds(delta.topology_dependent@[0]));
    }
    if delta.region_owned_geometry@.len() > 0 {
        assert(delta.region_owned_geometry.holds(delta.region_owned_geometry@[0]));
    }
}

/// Going back undoes what going forth did: what was added is removed, what was
/// removed is added, and the same parts are modified.
pub proof fn deltas_reverse(
    previous: &ConstructionGraph,
    current: &ConstructionGraph,
    forth: &ConstructionEditDelta,
    back: &ConstructionEditDelta,
)
    requires
        previous.wf(),
        current.wf(),
        forth.wf(),
        back.wf(),
        forth.describes(previous, current),
        back.describes(current, previous),
    ensures
        back.added@ == forth.removed@,
        back.removed@ == forth.added@,
        back.modified@ == forth.modified@,
{
    if features_agree(previous, current) {
        lemma_features_agree_back(previous, current);
    }
    if features_agree(current, previous) {
        lemma_features_agree_back(current, previous);
    }
    assert forall|part: PartId| #[trigger] back.added@.contains(part) <==> forth.removed@.contains(
        part,
    ) by {
        assert(back.added.holds(part) <==> forth.removed.holds(part));
    }
    ascending_sequences_agree(back.added@, forth.removed@);
    assert forall|part: PartId| #[trigger] back.removed@.contains(part) <==> forth.added@.contains(
        part,
    ) by {
        assert(back.removed.holds(part) <==> forth.added.holds(part));
    }
    ascending_sequences_agree(back.removed@, forth.added@);
    assert forall|part: PartId| #[trigger] back.modified@.contains(part)
        <==> forth.modified@.contains(part) by {
        lemma_part_changed_back(previous.parts.rows@, current.parts.rows@, part);
        assert(part_moved(previous, current, part) == part_moved(current, previous, part));
        assert(back.modified.holds(part) <==> forth.modified.holds(part));
    }
    ascending_sequences_agree(back.modified@, forth.modified@);
}

/// Features that agree do so either way round.
proof fn lemma_features_agree_back(previous: &ConstructionGraph, current: &ConstructionGraph)
    requires
        previous.wf(),
        current.wf(),
        features_agree(previous, current),
    ensures
        features_agree(current, previous),
{
    let a = previous.shape_features.rows.values@;
    let b = current.shape_features.rows.values@;
    assert forall|i: int| #![trigger b[i]] 0 <= i < b.len() implies b[i].agrees(&a[i]) by {
        assert(a[i].agrees(&b[i]));
    }
}

/// A part that changed did so either way round.
proof fn lemma_part_changed_back(
    previous: Map<PartId, PartSpec>,
    current: Map<PartId, PartSpec>,
    part: PartId,
)
    ensures
        part_changed(previous, current, part) == part_changed(current, previous, part),
{
    let a = previous[part];
    let b = current[part];
    assert(a.same_value(&b) ==> b.same_value(&a));
    assert(b.same_value(&a) ==> a.same_value(&b));
}

/// A delta tells every change: parts that came and went, parts that stand
/// elsewhere, on a grid that moved, or are of another shape, and regions that
/// came and went. What agrees in value and stands where it stood is not told,
/// unless an edge feature changed.
pub proof fn deltas_tell_every_change(
    previous: &ConstructionGraph,
    current: &ConstructionGraph,
    delta: &ConstructionEditDelta,
    part: PartId,
    region: RegionId,
)
    requires
        delta.describes(previous, current),
    ensures
        ({
            let was = previous.parts.rows@;
            let now = current.parts.rows@;
            let before = previous.transform_of(previous.frame_of_part(part));
            let after = current.transform_of(current.frame_of_part(part));
            &&& delta.added.holds(part) <==> now.dom().contains(part) && !was.dom().contains(part)
            &&& delta.removed.holds(part) <==> was.dom().contains(part) && !now.dom().contains(part)
            &&& was.dom().contains(part) && now.dom().contains(part) ==> {
                &&& was[part].pose != now[part].pose ==> delta.modified.holds(part)
                &&& was[part].layers@.len() != now[part].layers@.len() ==> delta.modified.holds(
                    part,
                )
                &&& !was[part].shape.same_value(now[part].shape) ==> delta.modified.holds(part)
                &&& before is Some && after is Some && !before->0.same_value(after->0)
                    ==> delta.modified.holds(part)
                &&& previous.shape_features == current.shape_features && was[part].same_value(
                    &now[part],
                ) && before is Some && after is Some && before->0.same_value(after->0)
                    ==> !delta.modified.holds(part)
            }
            &&& previous.regions.rows@.dom().contains(region)
                != current.regions.rows@.dom().contains(region)
                ==> delta.region_owned_geometry.holds(region)
            &&& previous.regions.rows@.dom().contains(region)
                && current.regions.rows@.dom().contains(region)
                && !previous.regions.rows@[region].same_value(&current.regions.rows@[region])
                ==> delta.region_owned_geometry.holds(region)
        }),
{
    assert(delta.added.holds(part) <==> current.has_part(part) && !previous.has_part(part));
    assert(delta.removed.holds(part) <==> previous.has_part(part) && !current.has_part(part));
    let told = delta.modified.holds(part);
    let listed = delta.region_owned_geometry.holds(region);
}

/// A weld that came, went or changed concerns the parts on both of its sides,
/// and one that stayed concerns none.
pub proof fn changed_welds_concern_both_sides(
    previous: &ConstructionGraph,
    current: &ConstructionGraph,
    weld: WeldId,
    part: PartId,
)
    ensures
        ({
            let was = previous.welds.rows@;
            let now = current.welds.rows@;
            &&& changed_weld(was, now, weld) is None <==> (was.dom().contains(weld)
                == now.dom().contains(weld) && (was.dom().contains(weld) ==> was[weld]
                == now[weld]))
            &&& was.dom().contains(weld) && !now.dom().contains(weld) && (was[weld].first.owner
                == FaceOwner::Part(part) || was[weld].second.owner == FaceOwner::Part(part))
                ==> weld_touched(previous, current, part)
            &&& now.dom().contains(weld) && !was.dom().contains(weld) && (now[weld].first.owner
                == FaceOwner::Part(part) || now[weld].second.owner == FaceOwner::Part(part))
                ==> weld_touched(previous, current, part)
            &&& was.dom().contains(weld) && now.dom().contains(weld) && was[weld] != now[weld] && (
            was[weld].first.owner == FaceOwner::Part(part) || was[weld].second.owner
                == FaceOwner::Part(part)) ==> weld_touched(previous, current, part)
        }),
{
    let spec = changed_weld(previous.welds.rows@, current.welds.rows@, weld);
    if spec is Some && weld_holds(spec->0, part) {
        assert(weld_touched(previous, current, part));
    }
}

/// A change of welds on a pipe run concerns every pipe there is; without pipes,
/// before and after, welds concern nothing.
pub proof fn pipes_are_rebuilt_together(
    previous: &ConstructionGraph,
    current: &ConstructionGraph,
    delta: &ConstructionEditDelta,
    touched: PartId,
    other: PartId,
)
    requires
        delta.describes(previous, current),
    ensures
        weld_touched(previous, current, touched) && current.has_part(touched)
            && previous.has_part(touched) && (previous.parts.rows@[touched].shape is Cylinder
            || previous.parts.rows@[touched].shape is PipeBend
            || previous.parts.rows@[touched].shape is PipeJunction) && current.has_part(other) && (
        current.parts.rows@[other].shape is Cylinder || current.parts.rows@[other].shape is PipeBend
            || current.parts.rows@[other].shape is PipeJunction)
            ==> delta.topology_dependent.holds(touched) && delta.topology_dependent.holds(other),
        (forall|part: PartId| #[trigger]
            previous.parts.rows@.dom().contains(part) ==> !is_pipe_shape(
                previous.parts.rows@[part].shape,
            )) && (forall|part: PartId| #[trigger]
            current.parts.rows@.dom().contains(part) ==> !is_pipe_shape(
                current.parts.rows@[part].shape,
            )) ==> !delta.topology_dependent.holds(other),
{
    if weld_touched(previous, current, touched) && current.has_part(touched) && previous.has_part(
        touched,
    ) && is_pipe_shape(previous.parts.rows@[touched].shape) {
        assert(has_pipe(previous));
        assert(pipes_touched(previous, current));
        assert(delta.topology_dependent.holds(touched) <==> {
            ||| (has_pipe(previous) || has_pipe(current)) && weld_touched(
                previous,
                current,
                touched,
            )
            ||| (has_pipe(previous) || has_pipe(current)) && pipes_touched(previous, current)
                && current.has_part(touched) && is_pipe_shape(
                current.parts.rows@[touched].shape,
            )
        });
    }
    let listed = delta.topology_dependent.holds(other);
    if (forall|part: PartId| #[trigger]
        previous.parts.rows@.dom().contains(part) ==> !is_pipe_shape(
            previous.parts.rows@[part].shape,
        )) && (forall|part: PartId| #[trigger]
        current.parts.rows@.dom().contains(part) ==> !is_pipe_shape(
            current.parts.rows@[part].shape,
        )) {
        assert(!has_pipe(previous) && !has_pipe(current));
    }
}

/// What an edit adds its reverse removes, and the other way round; what is
/// modified was there before and after.
pub proof fn reversed_edits_swap_what_came_and_went(
    there: ConstructionEditDelta,
    back: ConstructionEditDelta,
    previous: Map<PartId, PartSpec>,
    current: Map<PartId, PartSpec>,
    part: PartId,
)
    requires
        there.describes_parts(previous, current),
        back.describes_parts(current, previous),
    ensures
        there.added.holds(part) <==> back.removed.holds(part),
        there.removed.holds(part) <==> back.added.holds(part),
        there.added.holds(part) ==> !there.removed.holds(part) && !there.modified.holds(part)
            && current.dom().contains(part),
        previous == current ==> !there.added.holds(part) && !there.removed.holds(part),
        there.modified.holds(part) ==> previous.dom().contains(part) && current.dom().contains(part),
{
}

/// Grids differ when one of them is missing or any of their numbers does not
/// agree.
pub proof fn grids_differ_in_presence_or_value(
    a: Option<ConstructionFrame>,
    b: Option<ConstructionFrame>,
)
    ensures
        a is Some && b is None ==> transforms_differ(a, b) && transforms_differ(b, a),
        a is None && b is None ==> !transforms_differ(a, b),
        a is Some && b is Some ==> (transforms_differ(a, b) <==> !a->0.same_value(b->0)),
{
}

} // verus!
