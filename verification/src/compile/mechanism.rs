//! The whole compiled mechanism: compounds, joints, drives and schedules.

use vstd::prelude::*;

use super::actuation::claims_countable;
use super::classes::Classes;
use super::compounds::CompoundPlan;
use super::disjoint_set::{connected, represents};
use super::drives::{CoordinateActuation, GearSelection, LaneDepths, PortCapacity, PortClaim};
use super::forest::{all_links, lemma_link_connects};
use super::joints::{
    lemma_opening_distinct, lemma_opening_rows, the_first_locked_drive_is_told, PhysicalJoint,
};
use super::model::{CompiledBearing, MechanismBodyTopology, TopologyError};
use super::roots::components_list;
use super::topology::{
    bearings_where, coordinate_of, first_driven_closure, fixed_rows, joint_edges,
    lemma_few_openings, marked_before, tree_marks, CompiledTopology, LoopTopology,
};
use super::tree::{entry_hop, hangs, is_hop, row_fits, row_offers, rows_connect_within};
use crate::dynamics::{
    components_disjoint, in_components, joints_distinct, parent_earlier, row_named, schedulable,
    CompiledDynamics,
};
use crate::graph::ConstructionGraph;
use crate::ordered::lemma_ascending_distinct;
use crate::scalar::Scalar;

verus! {

/// What geometry and wiring tell of a construction beside its rows.
#[derive(Debug)]
pub struct MechanismInputs {
    /// Mass of each compound.
    pub masses: Vec<Scalar>,
    /// Transmission depths behind each part; read for Controllers alone.
    pub depths: Vec<LaneDepths>,
    /// What each wire takes from its module.
    pub claims: Vec<PortClaim>,
    /// Joints that one engine of each family can drive.
    pub capacity: PortCapacity,
}

/// Joints, forest, drives and schedules of a construction.
#[derive(Debug)]
pub struct CompiledMechanism {
    /// Joints between compounds and the forest they make.
    pub topology: CompiledTopology,
    /// Schedules of the forest.
    pub dynamics: CompiledDynamics,
    /// Actuator of every tree coordinate, in direct drive.
    pub actuation: Vec<CoordinateActuation>,
}

/// As many joints are listed as are marked.
proof fn lemma_listed_count(bearings: Seq<CompiledBearing>, marks: Seq<bool>, count: int)
    requires
        0 <= count,
    ensures
        bearings_where(bearings, marks, true, count).len() == marked_before(marks, count),
        0 <= marked_before(marks, count) <= count,
    decreases count,
{
    if count > 0 {
        lemma_listed_count(bearings, marks, count - 1);
    }
}

/// Every listed joint is the joint of a row.
proof fn lemma_listed_named(
    bearings: Seq<CompiledBearing>,
    marks: Seq<bool>,
    mark: bool,
    count: int,
    i: int,
)
    requires
        0 <= count <= bearings.len(),
        0 <= i < bearings_where(bearings, marks, mark, count).len(),
    ensures
        row_named(bearings, bearings_where(bearings, marks, mark, count)[i]),
    decreases count,
{
    if count > 0 {
        let before = bearings_where(bearings, marks, mark, count - 1);
        if i < before.len() {
            lemma_listed_named(bearings, marks, mark, count - 1, i);
        } else {
            assert(bearings[count - 1].source_bearing == bearings_where(
                bearings,
                marks,
                mark,
                count,
            )[i]);
        }
    }
}

/// Marks are counted in order.
proof fn lemma_marked_grows(marks: Seq<bool>, i: int, j: int)
    requires
        0 <= i < j,
        marks[i],
    ensures
        marked_before(marks, i) < marked_before(marks, j),
    decreases j,
{
    if i + 1 < j {
        lemma_marked_grows(marks, i, j - 1);
    }
}

/// A body hangs from a joint row that connects it to its parent.
proof fn lemma_entry_row(
    bearings: Seq<CompiledBearing>,
    roots: Seq<Vec<u32>>,
    meta: Seq<MechanismBodyTopology>,
    order: Seq<usize>,
    x: int,
) -> (e: int)
    requires
        hangs(bearings, roots, meta, order),
        meta.len() <= u32::MAX,
        0 <= x < meta.len(),
        !meta[x].is_root,
    ensures
        0 <= e < bearings.len(),
        meta[x].tree_bearing == Some(bearings[e].source_bearing),
        meta[x].parent_body < meta.len(),
        meta[meta[x].parent_body as int].preorder_index < meta[x].preorder_index,
        (bearings[e].compound_a == meta[x].parent_body && bearings[e].compound_b == x) || (
        bearings[e].compound_b == meta[x].parent_body && bearings[e].compound_a == x),
{
    let k = meta[x].preorder_index as int;
    assert(order[k] == x);
    assert(row_fits(bearings, meta, order, k));
    let parent = meta[x].parent_body as int;
    assert(is_hop(bearings, parent, entry_hop(meta, x)));
    let e = choose|e: int|
        0 <= e < bearings.len() && #[trigger] row_offers(bearings, e, parent, entry_hop(meta, x));
    e
}

/// A root hangs from no joint.
proof fn lemma_root_row(
    bearings: Seq<CompiledBearing>,
    roots: Seq<Vec<u32>>,
    meta: Seq<MechanismBodyTopology>,
    order: Seq<usize>,
    x: int,
)
    requires
        hangs(bearings, roots, meta, order),
        0 <= x < meta.len(),
        meta[x].is_root,
    ensures
        meta[x].tree_bearing is None,
{
    let k = meta[x].preorder_index as int;
    assert(order[k] == x);
    assert(row_fits(bearings, meta, order, k));
}

/// Classes of compounds are disjoint components that hold every compound.
proof fn lemma_components_partition(
    classes: Classes,
    labels: Seq<int>,
    components: Seq<Vec<u32>>,
)
    requires
        classes.lists(labels),
        labels.len() <= u32::MAX,
        components_list(classes, components),
    ensures
        components_disjoint(components),
        forall|c: int, i: int|
            #![trigger components[c]@[i]]
            0 <= c < components.len() && 0 <= i < components[c]@.len() ==> components[c]@[i]
                < labels.len() && classes.group_of@[components[c]@[i] as int] == c,
        forall|x: int|
            #![trigger classes.group_of@[x]]
            0 <= x < labels.len() ==> classes.group_of@[x] < components.len()
                && components[classes.group_of@[x] as int]@.contains(x as u32),
        forall|x: int|
            0 <= x < labels.len() ==> #[trigger] in_components(
                components,
                components.len() as int,
                x,
            ),
{
    assert forall|c: int, i: int| #![trigger components[c]@[i]]
        0 <= c < components.len() && 0 <= i < components[c]@.len() implies components[c]@[i]
        < labels.len() && classes.group_of@[components[c]@[i] as int] == c by {
        assert(components[c]@[i] == classes.groups@[c]@[i]);
    }
    assert forall|c: int, i: int, d: int, j: int|
        #![trigger components[c]@[i], components[d]@[j]]
        0 <= c < components.len() && 0 <= i < components[c]@.len() && 0 <= d < components.len()
            && 0 <= j < components[d]@.len() && components[c]@[i] == components[d]@[j] implies c
        == d && i == j by {
        assert(classes.groups@[c]@[i] == components[c]@[i]);
        assert(classes.groups@[d]@[j] == components[d]@[j]);
        if i < j {
            assert(classes.groups@[c]@[i] < classes.groups@[c]@[j]);
        } else if j < i {
            assert(classes.groups@[c]@[j] < classes.groups@[c]@[i]);
        }
    }
    assert forall|x: int| #![trigger classes.group_of@[x]] 0 <= x < labels.len() implies classes.group_of@[x]
        < components.len() && components[classes.group_of@[x] as int]@.contains(x as u32) by {
        let g = classes.group_of@[x] as int;
        let k = classes.groups@[g]@.index_of(x as usize);
        assert(classes.groups@[g]@[k] == x as usize);
        assert(components[g]@.len() == classes.groups@[g]@.len());
        assert(components[g]@[k] == x as u32);
    }
    assert forall|x: int| 0 <= x < labels.len() implies #[trigger] in_components(
        components,
        components.len() as int,
        x,
    ) by {
        let g = classes.group_of@[x] as int;
        assert(components[g]@.contains(x as u32));
    }
}

impl ConstructionGraph {
    /// No joint stands for two rows.
    proof fn lemma_rows_distinct(&self, plan: CompoundPlan, masses: Seq<Scalar>, out: CompiledTopology)
        requires
            self.wf(),
            self.laid_out(plan, masses, out),
        ensures
            joints_distinct(out.bearings@),
    {
        let n = self.bearings.rows.values@.len() as int;
        let compound_of = plan.compound_of@;
        let joints = out.joints.joints@;
        let rows = self.opening_rows(compound_of, n);
        let bearings = out.bearings@;
        lemma_opening_rows(self, compound_of, n);
        assert forall|e: int, f: int| #![trigger bearings[e], bearings[f]]
            0 <= e < bearings.len() && 0 <= f < bearings.len() && bearings[e].source_bearing
                == bearings[f].source_bearing implies e == f by {
            assert(self.describes_joint(compound_of, rows[e], joints[e], n));
            assert(self.describes_joint(compound_of, rows[f], joints[f], n));
            lemma_ascending_distinct(
                self.bearings.rows.keys@,
                joints[e].kept as int,
                joints[f].kept as int,
            );
            let p = rows[e];
            let q = rows[f];
            assert(self.opens_joint(compound_of, p) && self.opens_joint(compound_of, q));
            assert(self.same_joint(compound_of, p, q) && self.same_joint(compound_of, q, p));
            if p == q {
                lemma_opening_distinct(self, compound_of, n, e, f);
            }
        }
    }

    /// A laid-out forest can be scheduled.
    #[verifier::spinoff_prover]
    #[verifier::rlimit(40)]
    proof fn lemma_schedulable(&self, plan: CompoundPlan, masses: Seq<Scalar>, out: CompiledTopology)
        requires
            self.wf(),
            self.references_live(),
            self.groups_rows(plan.compound_of@, plan.compounds@.len() as int),
            self.laid_out(plan, masses, out),
            plan.compounds@.len() <= u32::MAX,
            6 * plan.compounds@.len() <= usize::MAX,
            self.bearings.rows.values@.len() <= u32::MAX,
        ensures
            schedulable(fixed_rows(plan.compounds@), out.bearings@, out.loop_topology),
    {
        let n = self.bearings.rows.values@.len() as int;
        let count = plan.compounds@.len() as int;
        let joints = out.joints.joints@;
        let edges = joint_edges(joints);
        let fixed = fixed_rows(plan.compounds@);
        let marks = tree_marks(edges, fixed);
        let bearings = out.bearings@;
        let topology = out.loop_topology;
        let meta = topology.body_parents@;
        let components = topology.mechanism_components@;
        let order = choose|order: Seq<usize>| #[trigger]
            hangs(bearings, topology.component_roots@, meta, order);
        let roots = topology.component_roots@;
        lemma_few_openings(self, plan.compound_of@, n);
        self.lemma_rows_distinct(plan, masses, out);
        lemma_listed_count(bearings, marks, joints.len() as int);
        assert forall|e: int| #![trigger bearings[e]] 0 <= e < bearings.len() implies bearings[e].compound_a
            < count && bearings[e].compound_b < count && bearings[e].compound_a == edges[e].a
            && bearings[e].compound_b == edges[e].b && bearings[e].coordinate_index
            == coordinate_of(marks, e) by {
            assert(self.describes_joint(
                plan.compound_of@,
                self.opening_rows(plan.compound_of@, n)[e],
                joints[e],
                n,
            ));
            self.lemma_sides_within(plan.compound_of@, count, joints[e].kept as int);
        }
        assert(rows_connect_within(bearings, meta.len() as int));
        assert forall|e: int| #![trigger bearings[e]]
            0 <= e < bearings.len() && bearings[e].coordinate_index is Some implies bearings[e].coordinate_index->0
            < topology.tree_bearings@.len() by {
            assert(marks[e]);
            lemma_marked_grows(marks, e, joints.len() as int);
            lemma_listed_count(bearings, marks, e);
        }
        assert forall|e: int, f: int| #![trigger bearings[e], bearings[f]]
            0 <= e < bearings.len() && 0 <= f < bearings.len()
                && bearings[e].coordinate_index is Some && bearings[e].coordinate_index
                == bearings[f].coordinate_index implies e == f by {
            lemma_listed_count(bearings, marks, e);
            lemma_listed_count(bearings, marks, f);
            if e < f {
                lemma_marked_grows(marks, e, f);
            } else if f < e {
                lemma_marked_grows(marks, f, e);
            }
        }
        assert forall|k: int| #![trigger topology.tree_bearings@[k]]
            0 <= k < topology.tree_bearings@.len() implies row_named(
            bearings,
            topology.tree_bearings@[k],
        ) by {
            lemma_listed_named(bearings, marks, true, joints.len() as int, k);
        }
        assert forall|k: int| #![trigger topology.closure_bearings@[k]]
            0 <= k < topology.closure_bearings@.len() implies row_named(
            bearings,
            topology.closure_bearings@[k],
        ) by {
            lemma_listed_named(bearings, marks, false, joints.len() as int, k);
        }
        assert forall|x: int| #![trigger meta[x]]
            0 <= x < meta.len() && meta[x].tree_bearing is Some implies row_named(
            bearings,
            meta[x].tree_bearing->0,
        ) by {
            if meta[x].is_root {
                lemma_root_row(bearings, roots, meta, order, x);
            } else {
                let e = lemma_entry_row(bearings, roots, meta, order, x);
                assert(bearings[e].source_bearing == meta[x].tree_bearing->0);
            }
        }
        assert forall|x: int, y: int| #![trigger meta[x], meta[y]]
            0 <= x < meta.len() && 0 <= y < meta.len() && x != y implies meta[x].preorder_index
            != meta[y].preorder_index && (meta[x].tree_bearing is Some ==> meta[x].tree_bearing
            != meta[y].tree_bearing) by {
            assert(order[meta[x].preorder_index as int] == x);
            assert(order[meta[y].preorder_index as int] == y);
            if meta[x].tree_bearing is Some && meta[x].tree_bearing == meta[y].tree_bearing {
                if meta[x].is_root {
                    lemma_root_row(bearings, roots, meta, order, x);
                }
                if meta[y].is_root {
                    lemma_root_row(bearings, roots, meta, order, y);
                }
                let e = lemma_entry_row(bearings, roots, meta, order, x);
                let f = lemma_entry_row(bearings, roots, meta, order, y);
                assert(bearings[e].source_bearing == bearings[f].source_bearing);
                assert(e == f);
            }
        }
        let (classes, labels) = choose|classes: Classes, labels: Seq<int>|
            #![trigger classes.lists(labels), components_list(classes, components)]
            labels.len() == count as nat && represents(labels, all_links(edges)) && classes.lists(
                labels,
            ) && components_list(classes, components);
        lemma_components_partition(classes, labels, components);
        assert forall|c: int, i: int|
            0 <= c < components.len() && 0 <= i
                < components[c]@.len() implies #[trigger] parent_earlier(
            meta,
            components[c]@,
            components[c]@[i] as int,
        ) by {
            let x = components[c]@[i] as int;
            assert(classes.group_of@[x] == c);
            if !meta[x].is_root {
                let e = lemma_entry_row(bearings, roots, meta, order, x);
                let p = meta[x].parent_body as int;
                lemma_link_connects(all_links(edges), e);
                assert(connected(all_links(edges), edges[e].a as int, edges[e].b as int));
                assert(labels[edges[e].a as int] == labels[edges[e].b as int]);
                classes.lemma_same_group(labels, x, p);
                assert(classes.group_of@[p] == c);
            }
        }
    }

    /// The joint of every tree coordinate is one of the construction.
    pub(crate) proof fn lemma_tree_joints_live(
        &self,
        plan: CompoundPlan,
        masses: Seq<Scalar>,
        out: CompiledTopology,
    )
        requires
            self.wf(),
            self.laid_out(plan, masses, out),
        ensures
            forall|c: int|
                #![trigger out.loop_topology.tree_bearings@[c]]
                0 <= c < out.loop_topology.tree_bearings@.len()
                    ==> self.bearings.rows@.dom().contains(
                    out.loop_topology.tree_bearings@[c],
                ),
    {
        let n = self.bearings.rows.values@.len() as int;
        let joints = out.joints.joints@;
        let marks = tree_marks(joint_edges(joints), fixed_rows(plan.compounds@));
        let tree = out.loop_topology.tree_bearings@;
        let bearings = out.bearings@;
        assert forall|c: int| #![trigger tree[c]]
            0 <= c < tree.len() implies self.bearings.rows@.dom().contains(tree[c]) by {
            lemma_listed_named(bearings, marks, true, joints.len() as int, c);
            let e = choose|e: int|
                0 <= e < bearings.len() && (#[trigger] bearings[e]).source_bearing == tree[c];
            assert(self.describes_joint(
                plan.compound_of@,
                self.opening_rows(plan.compound_of@, n)[e],
                joints[e],
                n,
            ));
            self.bearings.rows.lemma_index(joints[e].kept as int);
        }
    }

    /// Whether the layout refuses the construction with `fault`.
    pub open spec fn refuses_layout(&self, plan: CompoundPlan, fault: TopologyError) -> bool {
        match self.first_locked_drive(plan.compound_of@, self.bearings.rows.values@.len() as int) {
            Some(i) => fault == (TopologyError::SelfBearing {
                bearing: self.bearings.rows.keys@[i],
                compound: self.side_a(plan.compound_of@, i),
            }),
            None => self.strands_drive(plan, fault),
        }
    }

    /// Whether the drives of a laid-out construction are refused with `fault`:
    /// uneven transmissions first, then unsuited programs, then missing ports.
    pub open spec fn refuses_drives(
        &self,
        topology: LoopTopology,
        inputs: MechanismInputs,
        fault: TopologyError,
    ) -> bool {
        if !self.lanes_answer(inputs.depths@, 0, Ok(())) {
            self.lanes_answer(inputs.depths@, 0, Err(fault))
        } else {
            match self.first_unsuited(0) {
                Some(l) => fault == (TopologyError::IncompatibleActuatorProgram {
                    bearing: self.drive_links.rows.values@[l].bearing,
                }),
                None => self.exceeds_budget(
                    topology.bearing_coordinates@,
                    inputs.claims@,
                    inputs.capacity,
                    fault,
                ),
            }
        }
    }

    /// Whether a construction whose drives all have their place is refused with `fault`.
    pub open spec fn refuses_laid_out(
        &self,
        plan: CompoundPlan,
        inputs: MechanismInputs,
        fault: TopologyError,
    ) -> bool {
        exists|topology: CompiledTopology| #[trigger]
            self.laid_out(plan, inputs.masses@, topology) && self.drives_placed(plan, topology)
                && self.refuses_drives(topology.loop_topology, inputs, fault)
    }

    /// Whether every joint that a drive is wired to is free and carries a coordinate.
    pub open spec fn drives_placed(&self, plan: CompoundPlan, topology: CompiledTopology) -> bool {
        &&& self.first_locked_drive(
            plan.compound_of@,
            self.bearings.rows.values@.len() as int,
        ) is None
        &&& first_driven_closure(
            topology.joints.joints@,
            tree_marks(joint_edges(topology.joints.joints@), fixed_rows(plan.compounds@)),
            topology.joints.joints@.len() as int,
        ) is None
    }

    /// Whether a mechanism is what planned compounds compile to.
    pub open spec fn mechanism_of(
        &self,
        plan: CompoundPlan,
        inputs: MechanismInputs,
        mechanism: CompiledMechanism,
    ) -> bool {
        &&& self.laid_out(plan, inputs.masses@, mechanism.topology)
        &&& self.drives_placed(plan, mechanism.topology)
        &&& self.lanes_answer(inputs.depths@, 0, Ok(()))
        &&& self.first_unsuited(0) is None
        &&& self.actuates(
            mechanism.topology.loop_topology,
            inputs.claims@,
            inputs.capacity,
            Seq::empty(),
            mechanism.actuation@,
        )
        &&& mechanism.dynamics.fits(
            fixed_rows(plan.compounds@),
            mechanism.topology.bearings@,
            mechanism.topology.loop_topology,
        )
    }

    /// Compiles joints, forest, drives and schedules of planned compounds.
    pub fn compile_mechanism(&self, plan: &CompoundPlan, inputs: &MechanismInputs) -> (out: Result<
        CompiledMechanism,
        TopologyError,
    >)
        requires
            self.wf(),
            self.references_live(),
            self.programs_valid(),
            plan.heads@ == self.all_heads(),
            self.groups_rows(plan.compound_of@, plan.compounds@.len() as int),
            plan.compounds@.len() <= u32::MAX,
            6 * plan.compounds@.len() <= usize::MAX,
            self.bearings.rows.values@.len() <= u32::MAX,
            inputs.masses@.len() == plan.compounds@.len(),
            inputs.depths@.len() == self.parts.rows.keys@.len(),
            inputs.claims@.len() == self.drive_links.rows.values@.len(),
            inputs.claims@.len() <= u32::MAX,
            claims_countable(inputs.claims@, inputs.capacity),
        ensures
            match out {
                Ok(mechanism) => self.mechanism_of(*plan, *inputs, mechanism),
                Err(fault) => self.refuses_layout(*plan, fault) || self.refuses_laid_out(
                    *plan,
                    *inputs,
                    fault,
                ),
            },
    {
        let topology: CompiledTopology = match self.lay_out(plan, &inputs.masses) {
            Ok(topology) => topology,
            Err(fault) => {
                return Err(fault);
            },
        };
        proof {
            self.lemma_schedulable(*plan, inputs.masses@, topology);
        }
        let lanes: Result<(), TopologyError> = self.validate_transmission_depths(&inputs.depths);
        let ghost found = lanes;
        match lanes {
            Ok(()) => {
                proof {
                    self.lemma_lanes_let_through(inputs.depths@, 0, found);
                }
            },
            Err(fault) => {
                proof {
                    assert(found == Err::<(), TopologyError>(fault));
                    self.lemma_lanes_answer_once(inputs.depths@, 0, fault);
                    assert(self.laid_out(*plan, inputs.masses@, topology));
                }
                return Err(fault);
            },
        }
        match self.validate_actuator_programs() {
            Ok(()) => {},
            Err(fault) => {
                assert(self.laid_out(*plan, inputs.masses@, topology));
                return Err(fault);
            },
        }
        let gears: Vec<GearSelection> = Vec::new();
        let actuation: Vec<CoordinateActuation> = match self.resolve_coordinate_actuation(
            &topology.loop_topology,
            &inputs.claims,
            inputs.capacity,
            &gears,
        ) {
            Ok(actuation) => actuation,
            Err(fault) => {
                assert(self.laid_out(*plan, inputs.masses@, topology));
                return Err(fault);
            },
        };
        let mut fixed: Vec<bool> = Vec::new();
        let mut c: usize = 0;
        while c < plan.compounds.len()
            invariant
                c <= plan.compounds@.len(),
                fixed@ =~= fixed_rows(plan.compounds@).take(c as int),
            decreases plan.compounds@.len() - c,
        {
            fixed.push(plan.compounds[c].is_static);
            c += 1;
        }
        assert(fixed@ =~= fixed_rows(plan.compounds@));
        let dynamics: CompiledDynamics = CompiledDynamics::compile(
            &fixed,
            &topology.bearings,
            &topology.loop_topology,
        );
        assert(gears@ =~= Seq::<GearSelection>::empty());
        Ok(CompiledMechanism { topology, dynamics, actuation })
    }

    /// Whatever lets a construction through is the same answer.
    proof fn lemma_lanes_let_through(
        &self,
        depths: Seq<LaneDepths>,
        from: int,
        done: Result<(), TopologyError>,
    )
        requires
            self.lanes_answer(depths, from, done),
            done is Ok,
        ensures
            self.lanes_answer(depths, from, Ok(())),
        decreases self.parts.rows.values@.len() - from,
    {
        if 0 <= from < self.parts.rows.values@.len() {
            self.lemma_lanes_let_through(depths, from + 1, done);
        }
    }

    /// A construction with an uneven Controller is never let through.
    proof fn lemma_lanes_answer_once(&self, depths: Seq<LaneDepths>, from: int, fault: TopologyError)
        requires
            self.lanes_answer(depths, from, Err(fault)),
        ensures
            !self.lanes_answer(depths, from, Ok(())),
        decreases self.parts.rows.values@.len() - from,
    {
        if 0 <= from < self.parts.rows.values@.len() && !self.lanes_uneven(depths, from) {
            self.lemma_lanes_answer_once(depths, from + 1, fault);
        }
    }
}

/// A row inside one compound carries no drive once none is refused.
proof fn lemma_free_when_driven(graph: &ConstructionGraph, compound_of: Seq<u32>, count: int, i: int)
    requires
        0 <= i < count,
        graph.first_locked_drive(compound_of, count) is None,
        graph.row_wired(i),
    ensures
        !graph.locked(compound_of, i),
    decreases count,
{
    if i < count - 1 {
        lemma_free_when_driven(graph, compound_of, count - 1, i);
    }
}

/// A driven joint carries a coordinate once none is refused.
proof fn lemma_marked_when_driven(
    joints: Seq<PhysicalJoint>,
    marks: Seq<bool>,
    count: int,
    k: int,
)
    requires
        0 <= k < count,
        first_driven_closure(joints, marks, count) is None,
        joints[k].driven,
    ensures
        marks[k],
    decreases count,
{
    if k < count - 1 {
        lemma_marked_when_driven(joints, marks, count - 1, k);
    }
}

/// A joint that one of its rows drives is stood for by a driven row.
pub proof fn a_driven_row_stands_for_its_joint(
    graph: &ConstructionGraph,
    compound_of: Seq<u32>,
    joints: Seq<PhysicalJoint>,
    joint_of: Seq<Option<usize>>,
    i: int,
)
    requires
        graph.collapsed(
            compound_of,
            joints,
            joint_of,
            graph.bearings.rows.values@.len() as int,
        ),
        0 <= i < graph.bearings.rows.values@.len(),
        graph.row_wired(i),
        !graph.locked(compound_of, i),
    ensures
        joint_of[i] is Some,
        joints[joint_of[i]->0 as int].driven,
{
    let n = graph.bearings.rows.values@.len() as int;
    let k = joint_of[i]->0 as int;
    let first = graph.opening_rows(compound_of, n)[k];
    assert(graph.describes_joint(compound_of, first, joints[k], n));
    assert(graph.drives_joint(compound_of, first, i));
    assert(graph.drives_joint(compound_of, first, joints[k].kept as int));
}

/// A drive is never dropped: every joint that a wire reaches moves a coordinate.
pub proof fn every_drive_has_a_coordinate(
    graph: &ConstructionGraph,
    plan: CompoundPlan,
    masses: Seq<Scalar>,
    topology: CompiledTopology,
    i: int,
)
    requires
        graph.laid_out(plan, masses, topology),
        graph.drives_placed(plan, topology),
        0 <= i < graph.bearings.rows.values@.len(),
        graph.row_wired(i),
    ensures
        topology.loop_topology.bearing_coordinates@.dom().contains(graph.bearings.rows.keys@[i]),
{
    let n = graph.bearings.rows.values@.len() as int;
    let joints = topology.joints.joints@;
    let joint_of = topology.joints.joint_of@;
    let marks = tree_marks(joint_edges(joints), fixed_rows(plan.compounds@));
    lemma_free_when_driven(graph, plan.compound_of@, n, i);
    a_driven_row_stands_for_its_joint(graph, plan.compound_of@, joints, joint_of, i);
    lemma_marked_when_driven(joints, marks, joints.len() as int, joint_of[i]->0 as int);
    assert(super::topology::row_coordinate(joint_of, marks, i) is Some);
    assert(graph.bearings.rows.keys@[i] == graph.bearings.rows.keys@[i]);
}

/// Elimination only climbs: the row that follows another is smaller.
pub proof fn elimination_parents_are_smaller(
    dynamics: CompiledDynamics,
    fixed: Seq<bool>,
    bearings: Seq<CompiledBearing>,
    topology: LoopTopology,
    r: int,
)
    requires
        dynamics.fits(fixed, bearings, topology),
        0 <= r < dynamics.elimination_parent@.len(),
    ensures
        dynamics.elimination_parent@[r] is Some ==> dynamics.elimination_parent@[r]->0 < r,
{
    let meta = topology.body_parents@;
    let order = dynamics.preorder@;
    let k = lemma_row_owner(meta, fixed, order, order.len() as int, r);
    assert(crate::dynamics::rows_assigned(
        meta,
        fixed,
        order,
        dynamics.body_velocities@,
        dynamics.elimination_parent@,
        k,
    ));
    let x = order[k] as int;
    if r == dynamics.body_velocities@[x].start && !meta[x].is_root {
        assert(crate::dynamics::parent_listed(meta, order, k));
        let p = meta[x].parent_body as usize;
        let j = order.take(k).index_of(p);
        assert(order.take(k)[j] == p);
        assert(order[j] == p);
        assert(crate::dynamics::rows_assigned(
            meta,
            fixed,
            order,
            dynamics.body_velocities@,
            dynamics.elimination_parent@,
            j,
        ));
        lemma_start_grows(meta, fixed, order, j + 1, k);
    }
}

/// Rows only grow along the traversal.
proof fn lemma_start_grows(
    meta: Seq<MechanismBodyTopology>,
    fixed: Seq<bool>,
    order: Seq<usize>,
    i: int,
    j: int,
)
    requires
        0 <= i <= j,
    ensures
        crate::dynamics::velocity_start(meta, fixed, order, i) <= crate::dynamics::velocity_start(
            meta,
            fixed,
            order,
            j,
        ),
    decreases j,
{
    if i < j {
        lemma_start_grows(meta, fixed, order, i, j - 1);
    }
}

/// Every row belongs to a body.
proof fn lemma_row_owner(
    meta: Seq<MechanismBodyTopology>,
    fixed: Seq<bool>,
    order: Seq<usize>,
    count: int,
    r: int,
) -> (k: int)
    requires
        0 <= count,
        0 <= r < crate::dynamics::velocity_start(meta, fixed, order, count),
    ensures
        0 <= k < count,
        crate::dynamics::velocity_start(meta, fixed, order, k) <= r
            < crate::dynamics::velocity_start(meta, fixed, order, k + 1),
    decreases count,
{
    if r >= crate::dynamics::velocity_start(meta, fixed, order, count - 1) {
        count - 1
    } else {
        lemma_row_owner(meta, fixed, order, count - 1, r)
    }
}

/// A construction is refused for a drive that a weld locks first, told by the
/// first such joint and the body that holds both its sides; without one, for the
/// first driven joint that closes a loop.
pub proof fn layouts_are_refused_in_order(
    graph: &ConstructionGraph,
    plan: CompoundPlan,
    fault: TopologyError,
    i: int,
)
    requires
        graph.refuses_layout(plan, fault),
        0 <= i < graph.bearings.rows.values@.len(),
    ensures
        ({
            let locked = graph.side_a(plan.compound_of@, i) == graph.side_b(plan.compound_of@, i)
                && exists|l: int|
                0 <= l < graph.drive_links.rows.values@.len() && (
                #[trigger] graph.drive_links.rows.values@[l]).bearing
                    == graph.bearings.rows.keys@[i];
            &&& locked ==> fault is SelfBearing
            &&& fault is DrivenClosureBearing ==> !locked
            &&& fault is SelfBearing || fault is DrivenClosureBearing
            &&& locked && graph.first_locked_drive(plan.compound_of@, i) is None ==> fault == (
            TopologyError::SelfBearing {
                bearing: graph.bearings.rows.keys@[i],
                compound: graph.side_a(plan.compound_of@, i),
            })
        }),
{
    let n = graph.bearings.rows.values@.len() as int;
    the_first_locked_drive_is_told(graph, plan.compound_of@, n, i);
    match graph.first_locked_drive(plan.compound_of@, n) {
        Some(told) => {
            the_first_locked_drive_is_told(graph, plan.compound_of@, n, told);
            if graph.first_locked_drive(plan.compound_of@, i) is None && told < i {
                the_first_locked_drive_is_told(graph, plan.compound_of@, i, told);
            }
        },
        None => {},
    }
}

/// Drives are refused for uneven transmissions first, then for a program that
/// does not suit its actuator, told by the first such wire's joint.
pub proof fn drives_are_refused_in_order(
    graph: &ConstructionGraph,
    topology: LoopTopology,
    inputs: MechanismInputs,
    fault: TopologyError,
    l: int,
)
    requires
        graph.refuses_drives(topology, inputs, fault),
        graph.lanes_answer(inputs.depths@, 0, Ok(())),
        0 <= l < graph.drive_links.rows.values@.len(),
    ensures
        graph.first_unsuited(0) == Some(l) ==> fault == (
        TopologyError::IncompatibleActuatorProgram {
            bearing: graph.drive_links.rows.values@[l].bearing,
        }),
        graph.first_unsuited(0) is None ==> graph.exceeds_budget(
            topology.bearing_coordinates@,
            inputs.claims@,
            inputs.capacity,
            fault,
        ),
{
}

} // verus!
