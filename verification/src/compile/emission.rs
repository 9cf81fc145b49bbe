//! Which solids give a compound its collider rows.
//!
//! A part inside a region hands its geometry over to that region, so it gives
//! no rows of its own; the region's rows name the compound's first part inside
//! it.

use vstd::prelude::*;

use super::compounds::{head_in, inhabited, parts_in, CompiledCompound, CompoundPlan};
use super::grouping::HeadKey;
use crate::graph::ConstructionGraph;
use crate::ids::{PartId, RegionId};
use crate::parts::{ConstructionMaterial, PartShape, SolidOwner};
use crate::scalar::Scalar;
use crate::exact::{numbers_compare_as_their_values, signs_are_those_of_values};

verus! {

/// A solid that gives a compound collider rows.
#[derive(Clone, Copy, Debug, PartialEq, Eq, Structural)]
#[allow(inconsistent_fields)]
pub enum ColliderSource {
    /// A part, by its own shape.
    Part {
        part: PartId,
        /// Whether one round solid stands behind the rows.
        round: bool,
    },
    /// A part, by the cells that its edge features and layers leave.
    EvaluatedPart { part: PartId },
    /// A region, by its fused pieces.
    Region {
        region: RegionId,
        /// Part that the rows name.
        part: PartId,
    },
    /// A region, by the cells that its edge features leave.
    EvaluatedRegion {
        region: RegionId,
        /// Part that the rows name.
        part: PartId,
    },
}

/// Whether a shape is a whole cylinder without a bore.
pub open spec fn solid_round(shape: PartShape) -> bool {
    match shape {
        PartShape::Cylinder { inner_diameter, sweep_degrees, .. } => inner_diameter.same_value(
            Scalar::zero(),
        ) && sweep_degrees == 360,
        _ => false,
    }
}

/// The material that a part touches others with; parts of a fixed size have
/// none. `wall` is that of the layer on a cylinder's outer wall, if there is one.
pub open spec fn contact_of(
    shape: PartShape,
    wall: Option<ConstructionMaterial>,
) -> Option<ConstructionMaterial> {
    match shape {
        PartShape::Cuboid { material, .. } => Some(material),
        PartShape::Cylinder { material, .. } => match wall {
            Some(outer) => Some(outer),
            None => Some(material),
        },
        PartShape::PipeBend { material, .. } => Some(material),
        PartShape::PipeJunction { material, .. } => Some(material),
        _ => None,
    }
}

/// The material that a part touches others with.
pub fn contact_material(shape: PartShape, wall: Option<ConstructionMaterial>) -> (material: Option<
    ConstructionMaterial,
>)
    ensures
        material == contact_of(shape, wall),
{
    match shape {
        PartShape::Cuboid { material, .. } => Some(material),
        PartShape::Cylinder { material, .. } => match wall {
            Some(outer) => Some(outer),
            None => Some(material),
        },
        PartShape::PipeBend { material, .. } => Some(material),
        PartShape::PipeJunction { material, .. } => Some(material),
        _ => None,
    }
}

impl ConstructionGraph {
    /// How a part gives rows. A layered cylinder without edge features keeps the
    /// rows of its envelope, which only its outer wall ever touches.
    pub open spec fn part_source(&self, part: PartId) -> ColliderSource {
        let spec = self.parts.rows@[part];
        if self.featured(SolidOwner::Part(part)) || (spec.layers@.len() > 0 && !(
        spec.shape is Cylinder)) {
            ColliderSource::EvaluatedPart { part }
        } else {
            ColliderSource::Part { part, round: solid_round(spec.shape) }
        }
    }

    /// How a region gives rows.
    pub open spec fn region_source(&self, region: RegionId, part: PartId) -> ColliderSource {
        if self.featured(SolidOwner::Region(region)) {
            ColliderSource::EvaluatedRegion { region, part }
        } else {
            ColliderSource::Region { region, part }
        }
    }

    /// How the first `count` parts give rows.
    pub open spec fn part_sources(&self, parts: Seq<PartId>, count: int) -> Seq<ColliderSource>
        decreases count,
    {
        if count <= 0 {
            Seq::empty()
        } else if self.region_owning(parts[count - 1]) is None {
            self.part_sources(parts, count - 1).push(self.part_source(parts[count - 1]))
        } else {
            self.part_sources(parts, count - 1)
        }
    }

    /// The first part from `from` on that a region owns.
    pub open spec fn first_inside(&self, parts: Seq<PartId>, region: RegionId, from: int) -> Option<
        PartId,
    >
        decreases parts.len() - from,
    {
        if from < 0 || from >= parts.len() {
            None
        } else if self.region_owning(parts[from]) == Some(region) {
            Some(parts[from])
        } else {
            self.first_inside(parts, region, from + 1)
        }
    }

    /// How the first `count` regions give rows.
    pub open spec fn region_sources(
        &self,
        parts: Seq<PartId>,
        regions: Seq<RegionId>,
        count: int,
    ) -> Seq<ColliderSource>
        decreases count,
    {
        if count <= 0 {
            Seq::empty()
        } else {
            let before = self.region_sources(parts, regions, count - 1);
            let region = regions[count - 1];
            if self.regions.rows@.dom().contains(region) {
                before.push(
                    self.region_source(region, self.first_inside(parts, region, 0)->0),
                )
            } else {
                before
            }
        }
    }

    /// How a compound gets its rows: parts first, then regions.
    pub open spec fn compound_sources(&self, compound: CompiledCompound) -> Seq<ColliderSource> {
        let parts = compound.source_parts@;
        let regions = compound.regions@;
        self.part_sources(parts, parts.len() as int) + self.region_sources(
            parts,
            regions,
            regions.len() as int,
        )
    }

    /// Whether a compound lists live parts, and regions that own one of them.
    pub open spec fn compound_live(&self, compound: CompiledCompound) -> bool {
        &&& forall|i: int|
            #![trigger compound.source_parts@[i]]
            0 <= i < compound.source_parts@.len() ==> self.has_part(compound.source_parts@[i])
        &&& forall|r: int|
            #![trigger compound.regions@[r]]
            0 <= r < compound.regions@.len() ==> self.first_inside(
                compound.source_parts@,
                compound.regions@[r],
                0,
            ) is Some
    }

    /// The first part of a list that a region owns.
    fn find_inside(&self, parts: &Vec<PartId>, region: RegionId) -> (found: Option<PartId>)
        requires
            self.wf(),
        ensures
            found == self.first_inside(parts@, region, 0),
    {
        let mut i: usize = 0;
        while i < parts.len()
            invariant
                self.wf(),
                i <= parts@.len(),
                self.first_inside(parts@, region, 0) == self.first_inside(
                    parts@,
                    region,
                    i as int,
                ),
            decreases parts@.len() - i,
        {
            match self.region_of(parts[i]) {
                Some(owner) => {
                    if owner == region {
                        return Some(parts[i]);
                    }
                },
                None => {},
            }
            i += 1;
        }
        None
    }

    /// Lists the solids that give a compound its collider rows, in row order.
    pub fn collider_sources(&self, compound: &CompiledCompound) -> (sources: Vec<ColliderSource>)
        requires
            self.wf(),
            self.compound_live(*compound),
        ensures
            sources@ == self.compound_sources(*compound),
    {
        let mut sources: Vec<ColliderSource> = Vec::new();
        let mut i: usize = 0;
        while i < compound.source_parts.len()
            invariant
                self.wf(),
                self.compound_live(*compound),
                i <= compound.source_parts@.len(),
                sources@ == self.part_sources(compound.source_parts@, i as int),
            decreases compound.source_parts@.len() - i,
        {
            let part: PartId = compound.source_parts[i];
            if self.region_of(part).is_none() {
                assert(self.has_part(compound.source_parts@[i as int]));
                match self.parts.rows.get(part) {
                    Some(spec) => {
                        let round: bool = match spec.shape {
                            PartShape::Cylinder { inner_diameter, sweep_degrees, .. } => {
                                inner_diameter.equal(Scalar::zero()) && sweep_degrees == 360
                            },
                            _ => false,
                        };
                        let cylinder: bool = match spec.shape {
                            PartShape::Cylinder { .. } => true,
                            _ => false,
                        };
                        if self.owner_has_shape_features(SolidOwner::Part(part)) || (
                        spec.layers.len() > 0 && !cylinder) {
                            sources.push(ColliderSource::EvaluatedPart { part });
                        } else {
                            sources.push(ColliderSource::Part { part, round });
                        }
                    },
                    None => {},
                }
            }
            i += 1;
        }
        let mut r: usize = 0;
        while r < compound.regions.len()
            invariant
                self.wf(),
                self.compound_live(*compound),
                r <= compound.regions@.len(),
                sources@ =~= self.part_sources(
                    compound.source_parts@,
                    compound.source_parts@.len() as int,
                ) + self.region_sources(compound.source_parts@, compound.regions@, r as int),
            decreases compound.regions@.len() - r,
        {
            let region: RegionId = compound.regions[r];
            if self.regions.rows.contains_key(region) {
                assert(self.first_inside(
                    compound.source_parts@,
                    compound.regions@[r as int],
                    0,
                ) is Some);
                match self.find_inside(&compound.source_parts, region) {
                    Some(part) => {
                        if self.owner_has_shape_features(SolidOwner::Region(region)) {
                            sources.push(ColliderSource::EvaluatedRegion { region, part });
                        } else {
                            sources.push(ColliderSource::Region { region, part });
                        }
                    },
                    None => {},
                }
            }
            r += 1;
        }
        sources
    }

    /// Whether a plan is the construction's, whichever parts are held still.
    pub open spec fn plans(&self, plan: CompoundPlan) -> bool {
        exists|static_parts: Seq<PartId>| #[trigger] self.planned(static_parts, plan)
    }

    /// A part behind `from` that a region owns is found.
    proof fn lemma_found_inside(&self, parts: Seq<PartId>, region: RegionId, from: int, at: int)
        requires
            0 <= from <= at < parts.len(),
            self.region_owning(parts[at]) == Some(region),
        ensures
            self.first_inside(parts, region, from) is Some,
        decreases at - from,
    {
        if self.region_owning(parts[from]) != Some(region) {
            self.lemma_found_inside(parts, region, from + 1, at);
        }
    }

    /// Every listed region owns a part of the compound.
    proof fn lemma_regions_peopled(
        &self,
        compound_of: Seq<u32>,
        c: int,
        count: int,
        r: int,
    ) -> (k: int)
        requires
            0 <= r < self.regions_in(compound_of, c, count).len(),
        ensures
            0 <= k < count,
            compound_of[k] == c,
            self.region_owning(self.parts.rows.keys@[k]) == Some(
                self.regions_in(compound_of, c, count)[r],
            ),
        decreases count,
    {
        let before = self.regions_in(compound_of, c, count - 1);
        if r < before.len() {
            self.lemma_regions_peopled(compound_of, c, count - 1, r)
        } else {
            count - 1
        }
    }

    /// Planned compounds are not empty, and what they list is live.
    pub proof fn lemma_planned_compound(&self, plan: CompoundPlan, c: int)
        requires
            self.wf(),
            self.plans(plan),
            0 <= c < plan.compounds@.len(),
        ensures
            self.compound_live(plan.compounds@[c]),
            plan.compounds@[c].heads.wf(),
            plan.compounds@[c].source_parts@.len() > 0 || plan.compounds@[c].heads@.len() > 0,
    {
        let static_parts = choose|static_parts: Seq<PartId>| #[trigger]
            self.planned(static_parts, plan);
        let compound = plan.compounds@[c];
        let compound_of = plan.compound_of@;
        let keys = self.parts.rows.keys@;
        let count = keys.len() as int;
        assert(self.fills_compound(static_parts, compound_of, c, compound));
        lemma_parts_in(keys, compound_of, c, count);
        assert forall|i: int| #![trigger compound.source_parts@[i]]
            0 <= i < compound.source_parts@.len() implies self.has_part(
            compound.source_parts@[i],
        ) by {
            assert(keys.contains(compound.source_parts@[i]));
        }
        assert forall|r: int| #![trigger compound.regions@[r]]
            0 <= r < compound.regions@.len() implies self.first_inside(
            compound.source_parts@,
            compound.regions@[r],
            0,
        ) is Some by {
            let k = self.lemma_regions_peopled(compound_of, c, count, r);
            assert(compound.source_parts@.contains(keys[k]));
            let at = compound.source_parts@.index_of(keys[k]);
            self.lemma_found_inside(compound.source_parts@, compound.regions@[r], 0, at);
        }
        assert(inhabited(compound_of, c));
        let row = choose|i: int| 0 <= i < compound_of.len() && #[trigger] compound_of[i] == c;
        if row < count {
            assert(compound.source_parts@.contains(keys[row]));
        } else {
            let heads = self.all_heads();
            let head: HeadKey = heads[row - count];
            assert(compound_of[count + (row - count)] == c);
            assert(head_in(heads, compound_of, count, c, heads.len() as int, head));
            assert(compound.heads.holds(head));
            assert(compound.heads@.contains(head));
        }
    }
}

/// A compound lists exactly the parts that stand in it.
proof fn lemma_parts_in(keys: Seq<PartId>, compound_of: Seq<u32>, c: int, count: int)
    requires
        0 <= count <= keys.len(),
    ensures
        forall|i: int|
            #![trigger parts_in(keys, compound_of, c, count)[i]]
            0 <= i < parts_in(keys, compound_of, c, count).len() ==> keys.contains(
                parts_in(keys, compound_of, c, count)[i],
            ),
        forall|k: int|
            #![trigger keys[k]]
            0 <= k < count && compound_of[k] == c ==> parts_in(
                keys,
                compound_of,
                c,
                count,
            ).contains(keys[k]),
    decreases count,
{
    if count > 0 {
        lemma_parts_in(keys, compound_of, c, count - 1);
        let before = parts_in(keys, compound_of, c, count - 1);
        let listed = parts_in(keys, compound_of, c, count);
        assert forall|i: int| #![trigger listed[i]] 0 <= i < listed.len() implies keys.contains(
            listed[i],
        ) by {
            if i < before.len() {
                assert(listed[i] == before[i]);
            } else {
                assert(listed[i] == keys[count - 1]);
            }
        }
        assert forall|k: int| #![trigger keys[k]] 0 <= k < count && compound_of[k]
            == c implies listed.contains(keys[k]) by {
            if k < count - 1 {
                assert(before.contains(keys[k]));
                let at = before.index_of(keys[k]);
                assert(listed[at] == keys[k]);
            } else {
                assert(listed[before.len() as int] == keys[k]);
            }
        }
    }
}

/// A part inside a region gives no rows of its own, and any other part of a
/// compound gives its rows in one place.
pub proof fn uncovered_parts_give_their_own_rows(
    graph: &ConstructionGraph,
    parts: Seq<PartId>,
    count: int,
    part: PartId,
)
    requires
        0 <= count <= parts.len(),
        parts.no_duplicates(),
    ensures
        graph.region_owning(part) is Some ==> !graph.part_sources(parts, count).contains(
            graph.part_source(part),
        ),
        graph.region_owning(part) is None ==> (graph.part_sources(parts, count).contains(
            graph.part_source(part),
        ) <==> parts.take(count).contains(part)),
        graph.part_sources(parts, count).no_duplicates(),
    decreases count,
{
    let listed = graph.part_sources(parts, count);
    if count > 0 {
        let last = parts[count - 1];
        let before = graph.part_sources(parts, count - 1);
        uncovered_parts_give_their_own_rows(graph, parts, count - 1, part);
        uncovered_parts_give_their_own_rows(graph, parts, count - 1, last);
        let shorter = parts.take(count - 1);
        let longer = parts.take(count);
        assert(longer =~= shorter.push(last));
        assert(longer.contains(part) <==> shorter.contains(part) || part == last) by {
            if shorter.contains(part) {
                let at = shorter.index_of(part);
                assert(longer[at] == part);
            }
            if part == last {
                assert(longer[count - 1] == part);
            }
            if longer.contains(part) {
                let at = longer.index_of(part);
                if at < count - 1 {
                    assert(shorter[at] == part);
                }
            }
        }
        assert(!shorter.contains(last)) by {
            if shorter.contains(last) {
                let at = shorter.index_of(last);
                assert(parts[at] == parts[count - 1]);
            }
        }
        let source = graph.part_source(part);
        let added = graph.part_source(last);
        if graph.region_owning(last) is None {
            assert(listed == before.push(added));
            assert(source == added ==> part == last);
            assert(listed.contains(source) <==> before.contains(source) || source == added) by {
                if before.contains(source) {
                    let at = before.index_of(source);
                    assert(listed[at] == source);
                }
                if source == added {
                    assert(listed[before.len() as int] == source);
                }
                if listed.contains(source) {
                    let at = listed.index_of(source);
                    if at < before.len() {
                        assert(before[at] == source);
                    }
                }
            }
            assert(!before.contains(added));
            assert forall|i: int, j: int| 0 <= i < listed.len() && 0 <= j < listed.len() && i
                != j implies listed[i] != listed[j] by {
                if i < before.len() && j < before.len() {
                    assert(before[i] != before[j]);
                } else if i < before.len() {
                    assert(before.contains(before[i]));
                } else {
                    assert(before.contains(before[j]));
                }
            }
        }
    } else {
        assert(parts.take(count).len() == 0);
    }
}

/// Which rows the first parts give.
proof fn lemma_part_rows_listed(
    graph: &ConstructionGraph,
    parts: Seq<PartId>,
    count: int,
    source: ColliderSource,
)
    requires
        0 <= count <= parts.len(),
    ensures
        graph.part_sources(parts, count).contains(source) <==> exists|i: int|
            0 <= i < count && graph.region_owning(#[trigger] parts[i]) is None && source
                == graph.part_source(parts[i]),
    decreases count,
{
    if count > 0 {
        broadcast use vstd::seq_lib::group_seq_properties;

        lemma_part_rows_listed(graph, parts, count - 1, source);
        if source == graph.part_source(parts[count - 1]) {
            let last = parts[count - 1];
        }
    }
}

/// Which rows the first regions give.
proof fn lemma_region_rows_listed(
    graph: &ConstructionGraph,
    parts: Seq<PartId>,
    regions: Seq<RegionId>,
    count: int,
    source: ColliderSource,
)
    requires
        0 <= count <= regions.len(),
    ensures
        graph.region_sources(parts, regions, count).contains(source) <==> exists|i: int|
            0 <= i < count && graph.regions.rows@.dom().contains(#[trigger] regions[i]) && source
                == graph.region_source(regions[i], graph.first_inside(parts, regions[i], 0)->0),
    decreases count,
{
    if count > 0 {
        broadcast use vstd::seq_lib::group_seq_properties;

        lemma_region_rows_listed(graph, parts, regions, count - 1, source);
        let last = regions[count - 1];
    }
}

/// A found part is the first that the region owns.
proof fn lemma_first_inside(
    graph: &ConstructionGraph,
    parts: Seq<PartId>,
    region: RegionId,
    from: int,
)
    requires
        0 <= from <= parts.len(),
    ensures
        graph.first_inside(parts, region, from) is Some ==> exists|i: int|
            from <= i < parts.len() && #[trigger] parts[i] == graph.first_inside(
                parts,
                region,
                from,
            )->0 && graph.region_owning(parts[i]) == Some(region) && forall|j: int|
                #![trigger parts[j]]
                from <= j < i ==> graph.region_owning(parts[j]) != Some(region),
    decreases parts.len() - from,
{
    if from < parts.len() && graph.region_owning(parts[from]) != Some(region) {
        lemma_first_inside(graph, parts, region, from + 1);
    } else if from < parts.len() {
        assert(parts[from] == graph.first_inside(parts, region, from)->0);
    }
}

/// A part gives rows where it stands in the body and no region owns it: by its
/// cells where an edge feature treats it, or where layers cover anything but a
/// cylinder, and by its own shape everywhere else. Its rows are round exactly
/// where it is a whole cylinder without a bore.
pub proof fn parts_give_rows_by_their_make(
    graph: &ConstructionGraph,
    compound: CompiledCompound,
    part: PartId,
    round: bool,
)
    ensures
        ({
            let spec = graph.parts.rows@[part];
            let sources = graph.compound_sources(compound);
            let stands = compound.source_parts@.contains(part) && graph.region_owning(part) is None;
            let treated = graph.featured(SolidOwner::Part(part));
            let by_cells = ColliderSource::EvaluatedPart { part };
            let by_shape = ColliderSource::Part { part, round };
            &&& sources.contains(by_cells) <==> stands && (treated || spec.layers@.len() > 0 && !(
            spec.shape is Cylinder))
            &&& sources.contains(by_shape) && round ==> stands && !treated && spec.shape is Cylinder
                && spec.shape->Cylinder_sweep_degrees == 360 && (
            spec.shape->Cylinder_inner_diameter.finite()
                ==> spec.shape->Cylinder_inner_diameter.units() == 0)
            &&& sources.contains(by_shape) && !round ==> stands && !treated && (
            spec.shape is Cylinder && spec.shape->Cylinder_inner_diameter.finite()
                ==> spec.shape->Cylinder_sweep_degrees != 360
                || spec.shape->Cylinder_inner_diameter.units() != 0)
            &&& stands && !treated && !(spec.shape is Cylinder) && spec.layers@.len() == 0 ==> (
            sources.contains(by_shape) <==> !round)
            &&& stands && !treated && spec.shape is Cylinder
                && spec.shape->Cylinder_inner_diameter.finite() ==> (sources.contains(by_shape)
                <==> (round <==> spec.shape->Cylinder_inner_diameter.units() == 0
                && spec.shape->Cylinder_sweep_degrees == 360))
        }),
{
    let spec = graph.parts.rows@[part];
    let parts = compound.source_parts@;
    let regions = compound.regions@;
    let by_cells = ColliderSource::EvaluatedPart { part };
    let by_shape = ColliderSource::Part { part, round };
    let own = graph.part_sources(parts, parts.len() as int);
    let fused = graph.region_sources(parts, regions, regions.len() as int);
    lemma_part_rows_listed(graph, parts, parts.len() as int, by_cells);
    lemma_part_rows_listed(graph, parts, parts.len() as int, by_shape);
    lemma_region_rows_listed(graph, parts, regions, regions.len() as int, by_cells);
    lemma_region_rows_listed(graph, parts, regions, regions.len() as int, by_shape);
    assert((own + fused).contains(by_cells) <==> own.contains(by_cells) || fused.contains(
        by_cells,
    )) by {
        broadcast use vstd::seq_lib::group_seq_properties;

    }
    assert((own + fused).contains(by_shape) <==> own.contains(by_shape) || fused.contains(
        by_shape,
    )) by {
        broadcast use vstd::seq_lib::group_seq_properties;

    }
    if parts.contains(part) {
        assert(parts[parts.index_of(part)] == part);
    }
    if spec.shape is Cylinder {
        let bore = spec.shape->Cylinder_inner_diameter;
        if bore.finite() {
            numbers_compare_as_their_values(bore, Scalar::zero());
            signs_are_those_of_values(bore);
        }
    }
}

/// A live region that the body lists gives rows, by its cells exactly where an
/// edge feature treats it, and names the first part that it owns.
pub proof fn regions_give_rows_for_their_parts(
    graph: &ConstructionGraph,
    compound: CompiledCompound,
    region: RegionId,
    at: int,
)
    requires
        graph.compound_live(compound),
        0 <= at < compound.source_parts@.len(),
    ensures
        ({
            let sources = graph.compound_sources(compound);
            let parts = compound.source_parts@;
            let stands = compound.regions@.contains(region) && graph.regions.rows@.dom().contains(
                region,
            );
            let named = graph.region_owning(parts[at]) == Some(region) && forall|j: int|
                #![trigger parts[j]]
                0 <= j < at ==> graph.region_owning(parts[j]) != Some(region);
            let by_cells = ColliderSource::EvaluatedRegion { region, part: parts[at] };
            let by_pieces = ColliderSource::Region { region, part: parts[at] };
            let treated = graph.featured(SolidOwner::Region(region));
            &&& stands && named && treated ==> sources.contains(by_cells)
            &&& stands && named && !treated ==> sources.contains(by_pieces)
            &&& sources.contains(by_cells) ==> stands && treated
            &&& sources.contains(by_pieces) ==> stands && !treated
            &&& sources.contains(by_cells) || sources.contains(by_pieces) ==> graph.region_owning(
                parts[at],
            ) == Some(region)
            &&& sources.contains(by_cells) || sources.contains(by_pieces) ==> forall|j: int|
                #![trigger parts[j]]
                0 <= j < at && graph.region_owning(parts[j]) == Some(region) ==> exists|i: int|
                    0 <= i <= j && #[trigger] parts[i] == parts[at]
        }),
{
    let parts = compound.source_parts@;
    let regions = compound.regions@;
    let part = parts[at];
    let own = graph.part_sources(parts, parts.len() as int);
    let fused = graph.region_sources(parts, regions, regions.len() as int);
    let sources = graph.compound_sources(compound);
    let by_cells = ColliderSource::EvaluatedRegion { region, part };
    let by_pieces = ColliderSource::Region { region, part };
    lemma_part_rows_listed(graph, parts, parts.len() as int, by_cells);
    lemma_part_rows_listed(graph, parts, parts.len() as int, by_pieces);
    lemma_region_rows_listed(graph, parts, regions, regions.len() as int, by_cells);
    lemma_region_rows_listed(graph, parts, regions, regions.len() as int, by_pieces);
    assert(sources.contains(by_cells) <==> own.contains(by_cells) || fused.contains(by_cells)) by {
        broadcast use vstd::seq_lib::group_seq_properties;

    }
    assert(sources.contains(by_pieces) <==> own.contains(by_pieces) || fused.contains(
        by_pieces,
    )) by {
        broadcast use vstd::seq_lib::group_seq_properties;

    }
    lemma_first_inside(graph, parts, region, 0);
    if regions.contains(region) {
        let r = regions.index_of(region);
        assert(graph.first_inside(parts, regions[r], 0) is Some);
        let i = choose|i: int|
            0 <= i < parts.len() && #[trigger] parts[i] == graph.first_inside(
                parts,
                region,
                0,
            )->0 && graph.region_owning(parts[i]) == Some(region) && forall|j: int|
                #![trigger parts[j]]
                0 <= j < i ==> graph.region_owning(parts[j]) != Some(region);
        if graph.region_owning(part) == Some(region) && forall|j: int|
            #![trigger parts[j]]
            0 <= j < at ==> graph.region_owning(parts[j]) != Some(region) {
            assert(i == at);
        }
        assert(regions[r] == region);
    }
}

/// Parts come before regions.
pub proof fn parts_give_rows_before_regions(
    graph: &ConstructionGraph,
    compound: CompiledCompound,
    i: int,
    j: int,
)
    requires
        0 <= i < j < graph.compound_sources(compound).len(),
        graph.compound_sources(compound)[j] is Part
            || graph.compound_sources(compound)[j] is EvaluatedPart,
    ensures
        graph.compound_sources(compound)[i] is Part || graph.compound_sources(compound)[i]
            is EvaluatedPart,
{
    let parts = compound.source_parts@;
    let regions = compound.regions@;
    let own = graph.part_sources(parts, parts.len() as int);
    let fused = graph.region_sources(parts, regions, regions.len() as int);
    let sources = graph.compound_sources(compound);
    if j >= own.len() {
        assert(sources[j] == fused[j - own.len()]);
        assert(fused.contains(sources[j]));
        lemma_region_rows_listed(graph, parts, regions, regions.len() as int, sources[j]);
    }
    assert(sources[i] == own[i]);
    assert(own.contains(sources[i]));
    lemma_part_rows_listed(graph, parts, parts.len() as int, sources[i]);
}

/// A part touches others with its own material; only a cylinder has a wall that
/// covers it, and only parts of a chosen size have a material.
pub proof fn parts_touch_with_their_surface(shape: PartShape, wall: Option<ConstructionMaterial>)
    ensures
        wall is None || !(shape is Cylinder) ==> match shape.surface() {
            Some((material, _)) => contact_of(shape, wall) == Some(material),
            None => contact_of(shape, wall) is None,
        },
        wall is Some && shape is Cylinder ==> contact_of(shape, wall) == wall,
{
}

} // verus!
