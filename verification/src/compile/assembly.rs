//! A whole construction, compiled.
//!
//! Compounds are planned first, because what geometry measures is measured of
//! them. From the plan and the measures everything else follows at once, or
//! nothing does.

use vstd::prelude::*;

use super::actuation::claims_countable;
use super::colliders::{PartRows, RegionRows, MAX_COMPILED_COLLIDERS};
use super::compounds::{CompiledCompound, CompoundPlan};
use super::drives::{LaneDepths, PortCapacity, PortClaim};
use super::emission::ColliderSource;
use super::mass::{
    identified_by, identifying_part, settle_mass, settled, sums_valid, MassProperties, MassSums,
};
use super::mechanism::{CompiledMechanism, MechanismInputs};
use super::model::TopologyError;
use crate::graph::ConstructionGraph;
use crate::ids::PartId;
use crate::scalar::Scalar;

verus! {

/// What geometry and wiring tell of a planned construction.
#[derive(Debug)]
pub struct CompileMeasures {
    /// Collider rows of each part.
    pub part_rows: Vec<PartRows>,
    /// Collider rows of each region.
    pub region_rows: Vec<RegionRows>,
    /// Sums over each compound.
    pub sums: Vec<MassSums>,
    /// Collider rows that each compound keeps once aligned boxes are merged.
    pub kept_rows: Vec<u32>,
    /// Transmission depths behind each part; read for Controllers alone.
    pub depths: Vec<LaneDepths>,
    /// What each wire takes from its module.
    pub claims: Vec<PortClaim>,
    /// Joints that one engine of each family can drive.
    pub capacity: PortCapacity,
}

/// One compiled compound.
#[derive(Debug)]
pub struct CompiledBody {
    /// Mass properties about the centre of mass.
    pub mass_properties: MassProperties,
    /// Solids that give collider rows, in row order.
    pub sources: Vec<ColliderSource>,
    /// First collider row.
    pub first_collider: u32,
    /// Row behind the last collider row.
    pub end_collider: u32,
}

/// A construction ready for simulation.
#[derive(Debug)]
pub struct CompiledCreation {
    /// Compounds in plan order.
    pub bodies: Vec<CompiledBody>,
    /// Joints, forest, drives and schedules.
    pub mechanism: CompiledMechanism,
    /// Compound of every part, in row order.
    pub part_to_compound: Vec<(PartId, u32)>,
}

/// Collider rows of the first `count` compounds.
pub open spec fn rows_before(kept: Seq<u32>, count: int) -> int
    decreases count,
{
    if count <= 0 {
        0
    } else {
        rows_before(kept, count - 1) + kept[count - 1]
    }
}

/// Masses that sums come to.
pub open spec fn masses_of(sums: Seq<MassSums>) -> Seq<Scalar> {
    Seq::new(sums.len(), |c: int| sums[c].mass)
}

/// The first of the first `count` compounds whose sums no body can have.
pub open spec fn first_unsettled(sums: Seq<MassSums>, count: int) -> Option<int>
    decreases count,
{
    if count <= 0 {
        None
    } else {
        match first_unsettled(sums, count - 1) {
            Some(c) => Some(c),
            None => if sums_valid(sums[count - 1]) {
                None
            } else {
                Some(count - 1)
            },
        }
    }
}

impl CompileMeasures {
    /// Whether the mechanism is compiled from these.
    pub open spec fn feeds(&self, inputs: MechanismInputs) -> bool {
        &&& inputs.masses@ == masses_of(self.sums@)
        &&& inputs.depths@ == self.depths@
        &&& inputs.claims@ == self.claims@
        &&& inputs.capacity == self.capacity
    }
}

impl ConstructionGraph {
    /// Whether everything of a planned construction is measured, and row
    /// numbers can be counted.
    pub open spec fn measured(&self, plan: CompoundPlan, measures: CompileMeasures) -> bool {
        &&& measures.part_rows@.len() == self.parts.rows.keys@.len()
        &&& measures.region_rows@.len() == self.regions.rows.keys@.len()
        &&& self.collider_rows(measures.part_rows@, measures.region_rows@) <= usize::MAX
        &&& measures.sums@.len() == plan.compounds@.len()
        &&& measures.kept_rows@.len() == plan.compounds@.len()
        &&& rows_before(measures.kept_rows@, plan.compounds@.len() as int) <= u32::MAX
        &&& measures.depths@.len() == self.parts.rows.keys@.len()
        &&& measures.claims@.len() == self.drive_links.rows.values@.len()
        &&& measures.claims@.len() <= u32::MAX
        &&& claims_countable(measures.claims@, measures.capacity)
    }

    /// Whether a body is what compound `c` compiles to.
    pub open spec fn body_of(
        &self,
        plan: CompoundPlan,
        measures: CompileMeasures,
        c: int,
        body: CompiledBody,
    ) -> bool {
        &&& body.mass_properties == settled(measures.sums@[c], plan.compounds@[c].is_static)
        &&& body.sources@ == self.compound_sources(plan.compounds@[c])
        &&& body.first_collider == rows_before(measures.kept_rows@, c)
        &&& body.end_collider == rows_before(measures.kept_rows@, c + 1)
    }

    /// Whether a construction compiles to `creation`.
    pub open spec fn compiles_to(
        &self,
        plan: CompoundPlan,
        measures: CompileMeasures,
        creation: CompiledCreation,
    ) -> bool {
        &&& creation.bodies@.len() == plan.compounds@.len()
        &&& forall|c: int|
            #![trigger creation.bodies@[c]]
            0 <= c < creation.bodies@.len() ==> self.body_of(
                plan,
                measures,
                c,
                creation.bodies@[c],
            )
        &&& exists|inputs: MechanismInputs| #[trigger]
            measures.feeds(inputs) && self.mechanism_of(plan, inputs, creation.mechanism)
        &&& creation.part_to_compound@ == Seq::new(
            self.parts.rows.keys@.len(),
            |i: int| (self.parts.rows.keys@[i], plan.compound_of@[i]),
        )
    }

    /// Whether a construction is refused with `fault`: for its collider rows
    /// first, then for a compound's mass, then for its mechanism.
    pub open spec fn refused_with(
        &self,
        plan: CompoundPlan,
        measures: CompileMeasures,
        fault: TopologyError,
    ) -> bool {
        let rows = self.collider_rows(measures.part_rows@, measures.region_rows@);
        if rows > MAX_COMPILED_COLLIDERS {
            fault == (TopologyError::ColliderBudgetExceeded {
                required: rows as usize,
                available: MAX_COMPILED_COLLIDERS,
            })
        } else {
            match first_unsettled(measures.sums@, measures.sums@.len() as int) {
                Some(c) => fault == (TopologyError::InvalidMassProperties {
                    part: identified_by(plan.compounds@[c]),
                }),
                None => exists|inputs: MechanismInputs| #[trigger]
                    measures.feeds(inputs) && (self.refuses_layout(plan, fault)
                        || self.refuses_laid_out(plan, inputs, fault)),
            }
        }
    }

    /// Settles the mass of every compound and lists where its rows come from.
    fn compile_bodies(&self, plan: &CompoundPlan, measures: &CompileMeasures) -> (bodies: Result<
        Vec<CompiledBody>,
        TopologyError,
    >)
        requires
            self.wf(),
            self.plans(*plan),
            self.measured(*plan, *measures),
        ensures
            match first_unsettled(measures.sums@, measures.sums@.len() as int) {
                Some(c) => bodies == Err::<Vec<CompiledBody>, TopologyError>(
                    TopologyError::InvalidMassProperties {
                        part: identified_by(plan.compounds@[c]),
                    },
                ),
                None => bodies is Ok && bodies->Ok_0@.len() == plan.compounds@.len() && forall|
                    c: int,
                |
                    #![trigger bodies->Ok_0@[c]]
                    0 <= c < bodies->Ok_0@.len() ==> self.body_of(
                        *plan,
                        *measures,
                        c,
                        bodies->Ok_0@[c],
                    ),
            },
    {
        let mut bodies: Vec<CompiledBody> = Vec::new();
        let mut rows: u32 = 0;
        let mut c: usize = 0;
        while c < plan.compounds.len()
            invariant
                self.wf(),
                self.plans(*plan),
                self.measured(*plan, *measures),
                c <= plan.compounds@.len(),
                rows == rows_before(measures.kept_rows@, c as int),
                first_unsettled(measures.sums@, c as int) is None,
                bodies@.len() == c,
                forall|d: int|
                    #![trigger bodies@[d]]
                    0 <= d < c ==> self.body_of(*plan, *measures, d, bodies@[d]),
            decreases plan.compounds@.len() - c,
        {
            let compound: &CompiledCompound = &plan.compounds[c];
            proof {
                self.lemma_planned_compound(*plan, c as int);
                lemma_rows_grow(measures.kept_rows@, c + 1, plan.compounds@.len() as int);
            }
            let mass_properties: MassProperties = match settle_mass(
                measures.sums[c],
                compound.is_static,
                identifying_part(compound),
            ) {
                Ok(mass_properties) => mass_properties,
                Err(fault) => {
                    proof {
                        lemma_first_unsettled(
                            measures.sums@,
                            c as int,
                            measures.sums@.len() as int,
                        );
                    }
                    return Err(fault);
                },
            };
            let sources: Vec<ColliderSource> = self.collider_sources(compound);
            let first_collider: u32 = rows;
            rows = rows + measures.kept_rows[c];
            bodies.push(
                CompiledBody { mass_properties, sources, first_collider, end_collider: rows },
            );
            c += 1;
        }
        Ok(bodies)
    }

    /// Compiles a planned construction, or refuses it.
    pub fn compile_graph(&self, plan: &CompoundPlan, measures: CompileMeasures) -> (out: Result<
        CompiledCreation,
        TopologyError,
    >)
        requires
            self.wf(),
            self.references_live(),
            self.programs_valid(),
            self.plans(*plan),
            self.measured(*plan, measures),
            plan.compounds@.len() <= u32::MAX,
            6 * plan.compounds@.len() <= usize::MAX,
            self.bearings.rows.values@.len() <= u32::MAX,
        ensures
            match out {
                Ok(creation) => self.collider_rows(measures.part_rows@, measures.region_rows@)
                    <= MAX_COMPILED_COLLIDERS && first_unsettled(
                    measures.sums@,
                    measures.sums@.len() as int,
                ) is None && self.compiles_to(*plan, measures, creation) && creation.joints_live(
                    self,
                ),
                Err(fault) => self.refused_with(*plan, measures, fault),
            },
    {
        match self.check_collider_budget(&measures.part_rows, &measures.region_rows) {
            Ok(_) => {},
            Err(fault) => {
                return Err(fault);
            },
        }
        let bodies: Vec<CompiledBody> = match self.compile_bodies(plan, &measures) {
            Ok(bodies) => bodies,
            Err(fault) => {
                return Err(fault);
            },
        };
        let mut masses: Vec<Scalar> = Vec::new();
        let mut c: usize = 0;
        while c < measures.sums.len()
            invariant
                c <= measures.sums@.len(),
                masses@ =~= masses_of(measures.sums@).take(c as int),
            decreases measures.sums@.len() - c,
        {
            masses.push(measures.sums[c].mass);
            c += 1;
        }
        assert(masses@ =~= masses_of(measures.sums@));
        let ghost given = measures;
        let inputs: MechanismInputs = MechanismInputs {
            masses,
            depths: measures.depths,
            claims: measures.claims,
            capacity: measures.capacity,
        };
        assert(given.feeds(inputs));
        let mechanism: CompiledMechanism = match self.compile_mechanism(plan, &inputs) {
            Ok(mechanism) => mechanism,
            Err(fault) => {
                return Err(fault);
            },
        };
        let mut part_to_compound: Vec<(PartId, u32)> = Vec::new();
        let mut i: usize = 0;
        while i < self.parts.rows.keys.len()
            invariant
                i <= self.parts.rows.keys@.len() <= plan.compound_of@.len(),
                part_to_compound@ =~= Seq::new(
                    i as nat,
                    |k: int| (self.parts.rows.keys@[k], plan.compound_of@[k]),
                ),
            decreases self.parts.rows.keys@.len() - i,
        {
            part_to_compound.push((self.parts.rows.keys[i], plan.compound_of[i]));
            i += 1;
        }
        let creation = CompiledCreation { bodies, mechanism, part_to_compound };
        proof {
            self.lemma_tree_joints_live(*plan, inputs.masses@, creation.mechanism.topology);
        }
        Ok(creation)
    }
}

/// More compounds never have fewer rows.
pub(crate) proof fn lemma_rows_grow(kept: Seq<u32>, i: int, j: int)
    requires
        0 <= i <= j,
    ensures
        0 <= rows_before(kept, i) <= rows_before(kept, j),
    decreases j,
{
    if i < j {
        lemma_rows_grow(kept, i, j - 1);
    } else if i > 0 {
        lemma_rows_grow(kept, i - 1, j - 1);
    }
}

/// The first compound that does not settle stays the first.
proof fn lemma_first_unsettled(sums: Seq<MassSums>, c: int, count: int)
    requires
        0 <= c < count,
        first_unsettled(sums, c) is None,
        !sums_valid(sums[c]),
    ensures
        first_unsettled(sums, count) == Some(c),
    decreases count,
{
    if c + 1 < count {
        lemma_first_unsettled(sums, c, count - 1);
    }
}

/// Compounds take their collider rows one behind the other: a row of one
/// compound is no other's.
pub proof fn collider_ranges_are_disjoint(
    graph: &ConstructionGraph,
    plan: CompoundPlan,
    measures: CompileMeasures,
    creation: CompiledCreation,
    c: int,
    d: int,
)
    requires
        graph.compiles_to(plan, measures, creation),
        0 <= c < d < creation.bodies@.len(),
    ensures
        creation.bodies@[c].first_collider <= creation.bodies@[c].end_collider,
        creation.bodies@[c].end_collider <= creation.bodies@[d].first_collider,
        d == c + 1 ==> creation.bodies@[c].end_collider == creation.bodies@[d].first_collider,
{
    assert(graph.body_of(plan, measures, c, creation.bodies@[c]));
    assert(graph.body_of(plan, measures, d, creation.bodies@[d]));
    lemma_rows_grow(measures.kept_rows@, c, c + 1);
    lemma_rows_grow(measures.kept_rows@, c + 1, d);
}

/// A compiled body weighs what was measured of its compound: its mass, centre
/// and inertia are the measured ones. One that can move has the measured
/// reciprocal of its mass and the measured inverse of its inertia; one that
/// cannot has neither, all of it zero.
pub proof fn bodies_weigh_what_was_measured(
    graph: &ConstructionGraph,
    plan: CompoundPlan,
    measures: CompileMeasures,
    creation: CompiledCreation,
    c: int,
)
    requires
        graph.compiles_to(plan, measures, creation),
        0 <= c < plan.compounds@.len(),
    ensures
        c < creation.bodies@.len(),
        ({
            let body = creation.bodies@[c].mass_properties;
            let sums = measures.sums@[c];
            &&& body.mass == sums.mass
            &&& body.center_of_mass == sums.center
            &&& body.inertia == sums.inertia
            &&& !plan.compounds@[c].is_static ==> body.inverse_mass == sums.reciprocal
                && body.inverse_inertia == sums.inverse
            &&& plan.compounds@[c].is_static ==> {
                &&& body.inverse_mass.bits == 0
                &&& body.inverse_inertia.x_axis.x.bits == 0
                &&& body.inverse_inertia.x_axis.y.bits == 0
                &&& body.inverse_inertia.x_axis.z.bits == 0
                &&& body.inverse_inertia.y_axis.x.bits == 0
                &&& body.inverse_inertia.y_axis.y.bits == 0
                &&& body.inverse_inertia.y_axis.z.bits == 0
                &&& body.inverse_inertia.z_axis.x.bits == 0
                &&& body.inverse_inertia.z_axis.y.bits == 0
                &&& body.inverse_inertia.z_axis.z.bits == 0
            }
        }),
{
    assert(graph.body_of(plan, measures, c, creation.bodies@[c]));
}

/// Bodies take as many collider rows as measuring left them, and the first row
/// of all is the first body's.
pub proof fn bodies_take_the_rows_they_keep(
    graph: &ConstructionGraph,
    plan: CompoundPlan,
    measures: CompileMeasures,
    creation: CompiledCreation,
    c: int,
)
    requires
        graph.compiles_to(plan, measures, creation),
        0 <= c < plan.compounds@.len(),
    ensures
        creation.bodies@.len() == plan.compounds@.len(),
        creation.bodies@[c].end_collider - creation.bodies@[c].first_collider
            == measures.kept_rows@[c],
        creation.bodies@[0].first_collider == 0,
{
    assert(graph.body_of(plan, measures, c, creation.bodies@[c]));
    assert(graph.body_of(plan, measures, 0, creation.bodies@[0]));
}

/// A construction is refused for its mass exactly when some compound's sums are
/// those of no body, and then for the first such compound.
pub proof fn the_first_unsettled_compound_is_refused(sums: Seq<MassSums>, c: int)
    requires
        0 <= c < sums.len(),
    ensures
        first_unsettled(sums, sums.len() as int) is None ==> sums_valid(sums[c]),
        first_unsettled(sums, sums.len() as int) matches Some(first) ==> {
            &&& 0 <= first < sums.len()
            &&& !sums_valid(sums[first])
            &&& c < first ==> sums_valid(sums[c])
        },
{
    lemma_unsettled(sums, sums.len() as int, c);
}

/// Among the first compounds, the first one that does not settle.
proof fn lemma_unsettled(sums: Seq<MassSums>, count: int, c: int)
    requires
        0 <= c < count <= sums.len(),
    ensures
        first_unsettled(sums, count) is None ==> sums_valid(sums[c]),
        first_unsettled(sums, count) matches Some(first) ==> {
            &&& 0 <= first < count
            &&& !sums_valid(sums[first])
            &&& c < first ==> sums_valid(sums[c])
        },
    decreases count,
{
    if c < count - 1 {
        lemma_unsettled(sums, count - 1, c);
    } else if count > 1 {
        lemma_unsettled(sums, count - 1, 0);
    }
}

/// A construction is refused for too many collider rows first, then for the
/// first compound that no body can have, told by a part of it.
pub proof fn constructions_are_refused_in_order(
    graph: &ConstructionGraph,
    plan: CompoundPlan,
    measures: CompileMeasures,
    fault: TopologyError,
    c: int,
)
    requires
        graph.refused_with(plan, measures, fault),
        0 <= graph.collider_rows(measures.part_rows@, measures.region_rows@) <= usize::MAX,
        0 <= c < measures.sums@.len(),
    ensures
        ({
            let rows = graph.collider_rows(measures.part_rows@, measures.region_rows@);
            let unsound = !sums_valid(measures.sums@[c]) && forall|d: int|
                #![trigger measures.sums@[d]]
                0 <= d < c ==> sums_valid(measures.sums@[d]);
            &&& rows > 0x2_0000 ==> fault == (TopologyError::ColliderBudgetExceeded {
                required: rows as usize,
                available: 0x2_0000,
            })
            &&& rows <= 0x2_0000 && unsound && plan.compounds@[c].source_parts@.len() > 0 ==> fault
                == (TopologyError::InvalidMassProperties {
                part: plan.compounds@[c].source_parts@[0],
            })
        }),
{
    the_first_unsettled_compound_is_refused(measures.sums@, c);
    match first_unsettled(measures.sums@, measures.sums@.len() as int) {
        Some(first) => {
            the_first_unsettled_compound_is_refused(measures.sums@, first);
        },
        None => {},
    }
}

/// Every part is mapped to the body that it became, in row order.
pub proof fn parts_are_mapped_to_their_bodies(
    graph: &ConstructionGraph,
    plan: CompoundPlan,
    measures: CompileMeasures,
    creation: CompiledCreation,
    i: int,
)
    requires
        graph.compiles_to(plan, measures, creation),
        0 <= i < graph.parts.rows.keys@.len(),
    ensures
        creation.part_to_compound@.len() == graph.parts.rows.keys@.len(),
        creation.part_to_compound@[i] == (graph.parts.rows.keys@[i], plan.compound_of@[i]),
{
}

} // verus!
