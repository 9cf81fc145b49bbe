//! The reduced-coordinate forest of a construction.

use vstd::prelude::*;

use super::classes::Classes;
use super::compounds::{CompiledCompound, CompoundPlan};
use super::disjoint_set::{
    merging_represents_one_more_link, ordered_pair, represents, separate_rows_represent_no_links,
    DisjointSet, Link,
};
use super::forest::{all_links, choose_tree_edges, edges_within, tree_rows, JointEdge};
use super::grouping::{head_of, lemma_heads};
use super::joints::{PhysicalJoint, PhysicalJoints};
use super::model::{CompiledBearing, MechanismBodyTopology, TopologyError};
use super::postorder::{contracts, number_postorder, postordered, renumbered};
use super::roots::{
    component_roots, components_list, components_within, every_body_has_one_root, roots_of,
    rows_describe,
};
use super::tree::{
    breadth_first, entry_hop, hang_forest, hangs, listed_before, parent_at, root_at, row_fits,
    same_tree,
};
use crate::graph::ConstructionGraph;
use crate::ids::{handle_rank, lemma_handle_rank, BearingId};
use crate::ordered::{ascending, lemma_ascending_distinct, OrderedMap, OrderedSet, Ranked};
use crate::scalar::Scalar;

verus! {

impl Ranked for [u32; 2] {
    open spec fn rank(self) -> int {
        handle_rank(self@[0], self@[1])
    }

    proof fn rank_identifies(a: Self, b: Self) {
        lemma_handle_rank(a@[0], a@[1], b@[0], b@[1]);
        assert(a@ =~= b@);
    }

    fn precedes(self, other: Self) -> (before: bool) {
        proof {
            lemma_handle_rank(self@[0], self@[1], other@[0], other@[1]);
        }
        self[0] < other[0] || (self[0] == other[0] && self[1] < other[1])
    }
}

/// Canonical forest and hard loop-closure partition.
#[derive(Debug)]
pub struct LoopTopology {
    /// Joints that introduce independent one-dimensional coordinates.
    pub tree_bearings: Vec<BearingId>,
    /// Joints represented by hard dependent closure equations.
    pub closure_bearings: Vec<BearingId>,
    /// Connected components, each listing compound rows in order.
    pub mechanism_components: Vec<Vec<u32>>,
    /// Canonical roots of each component. A component with several ground
    /// anchors has one fixed root for every anchored tree.
    pub component_roots: Vec<Vec<u32>>,
    /// Canonical parent and traversal metadata by compound row.
    pub body_parents: Vec<MechanismBodyTopology>,
    /// Deterministic leaf-to-root contraction rounds over non-root bodies.
    pub contraction_rounds: Vec<Vec<u32>>,
    /// Every joint row, rows collapsed into another as the same physical joint
    /// among them, to the coordinate it moves. Joints that close a loop are absent.
    pub bearing_coordinates: OrderedMap<BearingId, u32>,
}

/// Joints between compounds and the forest they make.
#[derive(Debug)]
pub struct CompiledTopology {
    /// Physical joints behind the joint rows.
    pub joints: PhysicalJoints,
    /// One row for each physical joint.
    pub bearings: Vec<CompiledBearing>,
    /// The forest that the joints make.
    pub loop_topology: LoopTopology,
    /// Pairs of compounds excluded from collision generation, ascending.
    pub collision_suppression: Vec<[u32; 2]>,
}

/// The edges that physical joints make between compounds.
pub open spec fn joint_edges(joints: Seq<PhysicalJoint>) -> Seq<JointEdge> {
    Seq::new(
        joints.len(),
        |k: int| JointEdge { a: joints[k].a, b: joints[k].b, driven: joints[k].driven },
    )
}

/// Which compounds are fixed.
pub open spec fn fixed_rows(compounds: Seq<CompiledCompound>) -> Seq<bool> {
    Seq::new(compounds.len(), |c: int| compounds[c].is_static)
}

/// Which joints carry an independent coordinate.
pub open spec fn tree_marks(edges: Seq<JointEdge>, fixed: Seq<bool>) -> Seq<bool> {
    Seq::new(edges.len(), |k: int| tree_rows(edges, fixed).contains(k))
}

/// How many of the first `count` marks are set.
pub open spec fn marked_before(marks: Seq<bool>, count: int) -> int
    decreases count,
{
    if count <= 0 {
        0
    } else {
        marked_before(marks, count - 1) + (if marks[count - 1] {
            1int
        } else {
            0int
        })
    }
}

/// The coordinate of joint `k`: tree joints are numbered in joint order.
pub open spec fn coordinate_of(marks: Seq<bool>, k: int) -> Option<u32> {
    if marks[k] {
        Some(marked_before(marks, k) as u32)
    } else {
        None
    }
}

/// The joints among the first `count` whose mark is `mark`.
pub open spec fn bearings_where(
    bearings: Seq<CompiledBearing>,
    marks: Seq<bool>,
    mark: bool,
    count: int,
) -> Seq<BearingId>
    decreases count,
{
    if count <= 0 {
        Seq::empty()
    } else if marks[count - 1] == mark {
        bearings_where(bearings, marks, mark, count - 1).push(bearings[count - 1].source_bearing)
    } else {
        bearings_where(bearings, marks, mark, count - 1)
    }
}

/// The first driven joint without a coordinate.
pub open spec fn first_driven_closure(
    joints: Seq<PhysicalJoint>,
    marks: Seq<bool>,
    count: int,
) -> Option<int>
    decreases count,
{
    if count <= 0 {
        None
    } else {
        match first_driven_closure(joints, marks, count - 1) {
            Some(k) => Some(k),
            None => if !marks[count - 1] && joints[count - 1].driven {
                Some(count - 1)
            } else {
                None
            },
        }
    }
}

/// Whether joint `k` connects the two rows of `pair`, whichever way round.
pub open spec fn joins_pair(joint: PhysicalJoint, pair: [u32; 2]) -> bool {
    pair@ == if joint.a <= joint.b {
        seq![joint.a, joint.b]
    } else {
        seq![joint.b, joint.a]
    }
}

/// Whether one of the first `count` joints connects the rows of `pair`.
pub open spec fn pair_joined(joints: Seq<PhysicalJoint>, pair: [u32; 2], count: int) -> bool {
    exists|k: int| 0 <= k < count && joins_pair(#[trigger] joints[k], pair)
}

/// Whether components are the classes of compounds that joints connect.
pub open spec fn components_of(
    edges: Seq<JointEdge>,
    count: nat,
    components: Seq<Vec<u32>>,
) -> bool {
    exists|classes: Classes, labels: Seq<int>|
        #![trigger classes.lists(labels), components_list(classes, components)]
        labels.len() == count && represents(labels, all_links(edges)) && classes.lists(labels)
            && components_list(classes, components)
}

/// Whether joint rows are the physical joints with their coordinates.
pub open spec fn rows_joints(
    keys: Seq<BearingId>,
    joints: Seq<PhysicalJoint>,
    marks: Seq<bool>,
    bearings: Seq<CompiledBearing>,
    count: int,
) -> bool {
    &&& bearings.len() == count
    &&& forall|k: int|
        #![trigger bearings[k]]
        0 <= k < count ==> bearings[k] == (CompiledBearing {
            source_bearing: keys[joints[k].kept as int],
            compound_a: joints[k].a,
            compound_b: joints[k].b,
            coordinate_index: coordinate_of(marks, k),
        })
}

/// The coordinate that joint row `i` moves.
pub open spec fn row_coordinate(
    joint_of: Seq<Option<usize>>,
    marks: Seq<bool>,
    i: int,
) -> Option<u32> {
    match joint_of[i] {
        Some(k) => coordinate_of(marks, k as int),
        None => None,
    }
}

/// Whether the map holds the coordinates of the first `count` joint rows.
pub open spec fn maps_coordinates(
    keys: Seq<BearingId>,
    joint_of: Seq<Option<usize>>,
    marks: Seq<bool>,
    coordinates: Map<BearingId, u32>,
    count: int,
) -> bool {
    &&& forall|i: int|
        #![trigger keys[i]]
        0 <= i < count ==> match row_coordinate(joint_of, marks, i) {
            Some(coordinate) => coordinates.dom().contains(keys[i]) && coordinates[keys[i]]
                == coordinate,
            None => !coordinates.dom().contains(keys[i]),
        }
    &&& forall|id: BearingId| #[trigger]
        coordinates.dom().contains(id) ==> keys.take(count).contains(id)
}

/// Whether some traversal hangs the forest.
pub open spec fn hung(
    bearings: Seq<CompiledBearing>,
    roots: Seq<Vec<u32>>,
    meta: Seq<MechanismBodyTopology>,
) -> bool {
    exists|order: Seq<usize>| #[trigger] hangs(bearings, roots, meta, order)
}

impl ConstructionGraph {
    /// Whether `out` is the forest that the joints make between the compounds.
    pub open spec fn laid_out(
        &self,
        plan: CompoundPlan,
        masses: Seq<Scalar>,
        out: CompiledTopology,
    ) -> bool {
        let joints = out.joints.joints@;
        let edges = joint_edges(joints);
        let fixed = fixed_rows(plan.compounds@);
        let marks = tree_marks(edges, fixed);
        let loops = out.loop_topology;
        &&& self.collapsed(
            plan.compound_of@,
            joints,
            out.joints.joint_of@,
            self.bearings.rows.values@.len() as int,
        )
        &&& rows_joints(
            self.bearings.rows.keys@,
            joints,
            marks,
            out.bearings@,
            joints.len() as int,
        )
        &&& loops.tree_bearings@ == bearings_where(
            out.bearings@,
            marks,
            true,
            joints.len() as int,
        )
        &&& loops.closure_bearings@ == bearings_where(
            out.bearings@,
            marks,
            false,
            joints.len() as int,
        )
        &&& components_of(edges, plan.compounds@.len(), loops.mechanism_components@)
        &&& loops.component_roots@.len() == loops.mechanism_components@.len()
        &&& forall|c: int|
            #![trigger loops.component_roots@[c]]
            0 <= c < loops.component_roots@.len() ==> loops.component_roots@[c]@ == roots_of(
                loops.mechanism_components@[c]@,
                fixed,
                masses,
            )
        &&& loops.body_parents@.len() == plan.compounds@.len()
        &&& hung(out.bearings@, loops.component_roots@, loops.body_parents@)
        &&& postordered(loops.body_parents@)
        &&& contracts(loops.body_parents@, loops.contraction_rounds@)
        &&& loops.bearing_coordinates.wf()
        &&& maps_coordinates(
            self.bearings.rows.keys@,
            out.joints.joint_of@,
            marks,
            loops.bearing_coordinates@,
            self.bearings.rows.values@.len() as int,
        )
        &&& ascending(out.collision_suppression@)
        &&& forall|pair: [u32; 2]| #[trigger]
            out.collision_suppression@.contains(pair) <==> pair_joined(
                joints,
                pair,
                joints.len() as int,
            )
    }

    /// Every joint connects compounds of the plan.
    pub proof fn lemma_sides_within(&self, compound_of: Seq<u32>, count: int, i: int)
        requires
            self.wf(),
            self.references_live(),
            self.groups_rows(compound_of, count),
            0 <= i < self.bearings.rows.values@.len(),
        ensures
            self.side_a(compound_of, i) < count,
            self.side_b(compound_of, i) < count,
    {
        let bearing = self.bearings.rows.values@[i];
        assert(self.bearing_live(bearing));
        lemma_heads(self, self.bearings.rows.values@.len() as int);
        let source = bearing.source.owner->Part_0;
        assert(self.parts.rows.keys@[self.dense(source)] == source);
        assert(compound_of[self.dense(source)] < count);
        if bearing.kind.owns_head {
            let heads = self.all_heads();
            let k = heads.index_of(head_of(bearing));
            assert(heads[k] == head_of(bearing));
            assert(compound_of[self.parts.rows.keys@.len() + k] < count);
        } else {
            let target = bearing.target->0.owner->Part_0;
            assert(self.parts.rows.keys@[self.dense(target)] == target);
            assert(compound_of[self.dense(target)] < count);
        }
    }

    /// Builds one row for each physical joint, and numbers the tree joints.
    fn number_joints(&self, joints: &Vec<PhysicalJoint>, marks: &Vec<bool>) -> (rows: Result<
        (Vec<CompiledBearing>, Vec<BearingId>, Vec<BearingId>),
        TopologyError,
    >)
        requires
            marks@.len() == joints@.len(),
            joints@.len() <= u32::MAX,
            forall|k: int|
                #![trigger joints@[k]]
                0 <= k < joints@.len() ==> joints@[k].kept < self.bearings.rows.keys@.len(),
        ensures
            match first_driven_closure(joints@, marks@, joints@.len() as int) {
                Some(k) => rows == Err::<
                    (Vec<CompiledBearing>, Vec<BearingId>, Vec<BearingId>),
                    TopologyError,
                >(
                    TopologyError::DrivenClosureBearing {
                        bearing: self.bearings.rows.keys@[joints@[k].kept as int],
                    },
                ),
                None => rows matches Ok((bearings, tree, closure)) && rows_joints(
                    self.bearings.rows.keys@,
                    joints@,
                    marks@,
                    bearings@,
                    joints@.len() as int,
                ) && tree@ == bearings_where(bearings@, marks@, true, joints@.len() as int)
                    && closure@ == bearings_where(
                    bearings@,
                    marks@,
                    false,
                    joints@.len() as int,
                ),
            },
    {
        let ghost n = joints@.len() as int;
        let mut bearings: Vec<CompiledBearing> = Vec::new();
        let mut tree: Vec<BearingId> = Vec::new();
        let mut closure: Vec<BearingId> = Vec::new();
        let mut k: usize = 0;
        while k < joints.len()
            invariant
                n == joints@.len(),
                marks@.len() == n,
                n <= u32::MAX,
                k <= n,
                forall|k: int|
                    #![trigger joints@[k]]
                    0 <= k < joints@.len() ==> joints@[k].kept < self.bearings.rows.keys@.len(),
                first_driven_closure(joints@, marks@, k as int) is None,
                rows_joints(self.bearings.rows.keys@, joints@, marks@, bearings@, k as int),
                tree@.len() == marked_before(marks@, k as int),
                tree@.len() <= k,
                tree@ == bearings_where(bearings@, marks@, true, k as int),
                closure@ == bearings_where(bearings@, marks@, false, k as int),
            decreases n - k,
        {
            let joint: PhysicalJoint = joints[k];
            let id: BearingId = self.bearings.rows.keys[joint.kept];
            let ghost before = bearings@;
            let coordinate_index: Option<u32> = if marks[k] {
                let coordinate: u32 = tree.len() as u32;
                tree.push(id);
                Some(coordinate)
            } else {
                if joint.driven {
                    proof {
                        lemma_first_closure_stays(joints@, marks@, k + 1, n);
                    }
                    return Err(TopologyError::DrivenClosureBearing { bearing: id });
                }
                closure.push(id);
                None
            };
            bearings.push(
                CompiledBearing {
                    source_bearing: id,
                    compound_a: joint.a,
                    compound_b: joint.b,
                    coordinate_index,
                },
            );
            proof {
                lemma_bearings_where(before, bearings@, marks@, true, k as int);
                lemma_bearings_where(before, bearings@, marks@, false, k as int);
            }
            k += 1;
        }
        Ok((bearings, tree, closure))
    }

    /// Maps every joint row to the coordinate it moves.
    fn map_coordinates(&self, joint_of: &Vec<Option<usize>>, bearings: &Vec<CompiledBearing>) -> (
        coordinates: OrderedMap<BearingId, u32>)
        requires
            self.wf(),
            joint_of@.len() == self.bearings.rows.keys@.len(),
            forall|i: int|
                #![trigger joint_of@[i]]
                0 <= i < joint_of@.len() ==> match joint_of@[i] {
                    Some(k) => k < bearings@.len(),
                    None => true,
                },
        ensures
            coordinates.wf(),
            forall|marks: Seq<bool>|
                #![trigger maps_coordinates(
                    self.bearings.rows.keys@,
                    joint_of@,
                    marks,
                    coordinates@,
                    joint_of@.len() as int,
                )]
                (forall|k: int|
                    #![trigger bearings@[k]]
                    0 <= k < bearings@.len() ==> bearings@[k].coordinate_index == coordinate_of(
                        marks,
                        k,
                    )) ==> maps_coordinates(
                    self.bearings.rows.keys@,
                    joint_of@,
                    marks,
                    coordinates@,
                    joint_of@.len() as int,
                ),
    {
        let ghost keys = self.bearings.rows.keys@;
        let mut coordinates: OrderedMap<BearingId, u32> = OrderedMap::new();
        let mut i: usize = 0;
        while i < joint_of.len()
            invariant
                self.wf(),
                keys == self.bearings.rows.keys@,
                joint_of@.len() == keys.len(),
                i <= joint_of@.len(),
                coordinates.wf(),
                forall|i: int|
                    #![trigger joint_of@[i]]
                    0 <= i < joint_of@.len() ==> match joint_of@[i] {
                        Some(k) => k < bearings@.len(),
                        None => true,
                    },
                forall|j: int|
                    #![trigger keys[j]]
                    0 <= j < i ==> match bearing_row_coordinate(joint_of@, bearings@, j) {
                        Some(coordinate) => coordinates@.dom().contains(keys[j])
                            && coordinates@[keys[j]] == coordinate,
                        None => !coordinates@.dom().contains(keys[j]),
                    },
                forall|id: BearingId| #[trigger]
                    coordinates@.dom().contains(id) ==> keys.take(i as int).contains(id),
            decreases joint_of@.len() - i,
        {
            let ghost before = coordinates@;
            let id: BearingId = self.bearings.rows.keys[i];
            proof {
                if before.dom().contains(id) {
                    let j = keys.take(i as int).index_of(id);
                    assert(keys.take(i as int)[j] == keys[j]);
                    lemma_ascending_distinct(keys, i as int, j);
                }
                assert(joint_of@[i as int] == joint_of@[i as int]);
            }
            if let Some(k) = joint_of[i] {
                if let Some(coordinate) = bearings[k].coordinate_index {
                    coordinates.insert(id, coordinate);
                }
            }
            proof {
                assert forall|j: int| #![trigger keys[j]] 0 <= j < i + 1 implies (
                match bearing_row_coordinate(joint_of@, bearings@, j) {
                    Some(coordinate) => coordinates@.dom().contains(keys[j])
                        && coordinates@[keys[j]] == coordinate,
                    None => !coordinates@.dom().contains(keys[j]),
                }) by {
                    if j < i && keys[j] == id {
                        lemma_ascending_distinct(keys, i as int, j);
                    }
                }
                assert forall|other: BearingId| #[trigger]
                    coordinates@.dom().contains(other) implies keys.take(i + 1).contains(other) by {
                    if other == id {
                        assert(keys.take(i + 1)[i as int] == id);
                    } else {
                        assert(before.dom().contains(other));
                        let j = keys.take(i as int).index_of(other);
                        assert(keys.take(i as int)[j] == other);
                        assert(keys.take(i + 1)[j] == other);
                    }
                }
            }
            i += 1;
        }
        proof {
            assert forall|marks: Seq<bool>|
                #![trigger maps_coordinates(
                    self.bearings.rows.keys@,
                    joint_of@,
                    marks,
                    coordinates@,
                    joint_of@.len() as int,
                )]
                (forall|k: int|
                    #![trigger bearings@[k]]
                    0 <= k < bearings@.len() ==> bearings@[k].coordinate_index == coordinate_of(
                        marks,
                        k,
                    )) implies maps_coordinates(
                self.bearings.rows.keys@,
                joint_of@,
                marks,
                coordinates@,
                joint_of@.len() as int,
            ) by {
                assert forall|j: int| #![trigger keys[j]] 0 <= j < joint_of@.len() implies (
                match row_coordinate(joint_of@, marks, j) {
                    Some(coordinate) => coordinates@.dom().contains(keys[j])
                        && coordinates@[keys[j]] == coordinate,
                    None => !coordinates@.dom().contains(keys[j]),
                }) by {
                    assert(joint_of@[j] == joint_of@[j]);
                    assert(bearing_row_coordinate(joint_of@, bearings@, j) == row_coordinate(
                        joint_of@,
                        marks,
                        j,
                    )) by {
                        if let Some(k) = joint_of@[j] {
                            assert(bearings@[k as int].coordinate_index == coordinate_of(
                                marks,
                                k as int,
                            ));
                        }
                    }
                }
            }
        }
        coordinates
    }
}

/// The coordinate that joint row `i` moves, read off the joint rows.
spec fn bearing_row_coordinate(
    joint_of: Seq<Option<usize>>,
    bearings: Seq<CompiledBearing>,
    i: int,
) -> Option<u32> {
    match joint_of[i] {
        Some(k) => bearings[k as int].coordinate_index,
        None => None,
    }
}

/// The first driven closure stays the first when more joints are looked at.
proof fn lemma_first_closure_stays(
    joints: Seq<PhysicalJoint>,
    marks: Seq<bool>,
    k: int,
    n: int,
)
    requires
        0 <= k <= n,
        first_driven_closure(joints, marks, k) is Some,
    ensures
        first_driven_closure(joints, marks, n) == first_driven_closure(joints, marks, k),
    decreases n - k,
{
    if k < n {
        lemma_first_closure_stays(joints, marks, k + 1, n);
    }
}

/// Later rows do not change the list of the first ones.
proof fn lemma_bearings_where(
    before: Seq<CompiledBearing>,
    after: Seq<CompiledBearing>,
    marks: Seq<bool>,
    mark: bool,
    count: int,
)
    requires
        count <= before.len() <= after.len(),
        forall|k: int| #![trigger after[k]] 0 <= k < before.len() ==> after[k] == before[k],
    ensures
        bearings_where(after, marks, mark, count) == bearings_where(before, marks, mark, count),
    decreases count,
{
    if count > 0 {
        lemma_bearings_where(before, after, marks, mark, count - 1);
    }
}

/// The traversal hangs the forest whatever its postorder positions.
proof fn lemma_hangs_renumbered(
    bearings: Seq<CompiledBearing>,
    roots: Seq<Vec<u32>>,
    before: Seq<MechanismBodyTopology>,
    after: Seq<MechanismBodyTopology>,
    order: Seq<usize>,
)
    requires
        hangs(bearings, roots, before, order),
        renumbered(before, after),
        rows_below(roots, before.len() as int),
    ensures
        hangs(bearings, roots, after, order),
{
    assert forall|k: int| #![trigger order[k]] 0 <= k < order.len() implies order[k] < after.len()
        && after[order[k] as int].preorder_index == k && after[order[k] as int].parent_body
        < after.len() by {
        assert(row_fits(bearings, before, order, k));
        assert(before[order[k] as int].preorder_index == k);
        assert(after[order[k] as int].preorder_index == before[order[k] as int].preorder_index);
    }
    assert forall|k: int| 0 <= k < order.len() implies root_at(after, order, k) == root_at(
        before,
        order,
        k,
    ) && parent_at(after, order, k) == parent_at(before, order, k) by {
        assert(order[k] < after.len());
        let x = order[k] as int;
        assert(after[x].is_root == before[x].is_root);
        let p = after[x].parent_body as int;
        assert(after[p].preorder_index == before[p].preorder_index);
    }
    assert forall|i: int, j: int| 0 <= i && j < order.len() implies same_tree(after, order, i, j)
        == same_tree(before, order, i, j) by {
        if same_tree(after, order, i, j) {
            assert forall|r: int| #![trigger root_at(before, order, r)] i <= r <= j implies !root_at(
                before,
                order,
                r,
            ) by {
                assert(!root_at(after, order, r));
            }
        }
        if same_tree(before, order, i, j) {
            assert forall|r: int| #![trigger root_at(after, order, r)] i <= r <= j implies !root_at(
                after,
                order,
                r,
            ) by {
                assert(!root_at(before, order, r));
            }
        }
    }
    assert forall|k: int| #![trigger row_fits(bearings, after, order, k)]
        0 <= k < order.len() implies row_fits(bearings, after, order, k) by {
        assert(row_fits(bearings, before, order, k));
        assert(order[k] < after.len());
        let x = order[k] as int;
        assert(entry_hop(after, x) == entry_hop(before, x));
        let p = after[x].parent_body as int;
        assert(after[p].depth == before[p].depth);
        assert(after[p].component_index == before[p].component_index);
    }
    assert forall|x: int| #![trigger after[x]] 0 <= x < after.len() implies after[x].preorder_index
        < after.len() && order[after[x].preorder_index as int] == x && after[x].depth < after.len()
        && (after[x].is_root ==> after[x].component_index < roots.len()
        && roots[after[x].component_index as int]@.contains(x as u32)) by {
        assert(before[x].preorder_index < before.len());
    }
    assert(breadth_first(after, order)) by {
        assert forall|k: int| #![trigger order[k]]
            0 <= k < order.len() && !root_at(after, order, k) implies same_tree(
            after,
            order,
            parent_at(after, order, k) + 1,
            k,
        ) by {
            assert(!root_at(before, order, k));
            assert(row_fits(bearings, before, order, k));
            assert(before[order[k] as int].parent_body < before.len());
            assert(same_tree(before, order, parent_at(before, order, k) + 1, k));
        }
        assert forall|i: int, j: int| #![trigger order[i], order[j]]
            0 <= i < j < order.len() && same_tree(after, order, i, j) implies parent_at(
            after,
            order,
            i,
        ) <= parent_at(after, order, j) && (parent_at(after, order, i) == parent_at(
            after,
            order,
            j,
        ) ==> order[i] < order[j]) by {
            assert(same_tree(before, order, i, j));
        }
    }
    assert forall|c: int, i: int| #![trigger roots[c]@[i]]
        0 <= c < roots.len() && 0 <= i < roots[c]@.len() implies after[roots[c]@[i] as int].is_root
        && after[roots[c]@[i] as int].component_index == c by {
        assert(roots[c]@[i] < before.len());
        assert(before[roots[c]@[i] as int].is_root);
    }
    assert forall|c: int, i: int, d: int, j: int|
        #![trigger roots[c]@[i], roots[d]@[j]]
        0 <= c < roots.len() && 0 <= i < roots[c]@.len() && 0 <= d < roots.len() && 0 <= j
            < roots[d]@.len() && listed_before(c, i, d, j) implies after[roots[c]@[i] as int].preorder_index
        < after[roots[d]@[j] as int].preorder_index by {
        let x = roots[c]@[i] as int;
        let y = roots[d]@[j] as int;
        assert(x < before.len() && y < before.len());
        assert(after[x].preorder_index == before[x].preorder_index);
        assert(after[y].preorder_index == before[y].preorder_index);
    }
}

/// Whether every root is a row below `count`.
spec fn rows_below(roots: Seq<Vec<u32>>, count: int) -> bool {
    forall|c: int, i: int|
        #![trigger roots[c]@[i]]
        0 <= c < roots.len() && 0 <= i < roots[c]@.len() ==> roots[c]@[i] < count
}

/// Lists the pairs of compounds that a joint connects.
fn suppressed_pairs(joints: &Vec<PhysicalJoint>) -> (pairs: Vec<[u32; 2]>)
    ensures
        ascending(pairs@),
        forall|pair: [u32; 2]| #[trigger]
            pairs@.contains(pair) <==> pair_joined(joints@, pair, joints@.len() as int),
{
    let mut set: OrderedSet<[u32; 2]> = OrderedSet::new();
    let mut k: usize = 0;
    while k < joints.len()
        invariant
            k <= joints@.len(),
            set.wf(),
            forall|pair: [u32; 2]| #[trigger]
                set.holds(pair) <==> pair_joined(joints@, pair, k as int),
        decreases joints@.len() - k,
    {
        let ghost before = set;
        let fresh: [u32; 2] = ordered_pair(joints[k].a, joints[k].b);
        set.insert(fresh);
        proof {
            assert forall|pair: [u32; 2]| #[trigger] set.holds(pair) <==> pair_joined(
                joints@,
                pair,
                k + 1,
            ) by {
                let was = before.holds(pair);
                assert(was <==> pair_joined(joints@, pair, k as int));
                assert(joins_pair(joints@[k as int], fresh));
                assert(set.holds(pair) <==> was || pair == fresh);
                if joins_pair(joints@[k as int], pair) {
                    assert(pair@ =~= fresh@);
                    assert(pair == fresh);
                }
                if pair_joined(joints@, pair, k + 1) {
                    let j = choose|j: int|
                        0 <= j < k + 1 && joins_pair(#[trigger] joints@[j], pair);
                    if j < k {
                        assert(pair_joined(joints@, pair, k as int));
                    }
                }
                if was {
                    let j = choose|j: int|
                        0 <= j < k && joins_pair(#[trigger] joints@[j], pair);
                    assert(joins_pair(joints@[j], pair));
                }
            }
        }
        k += 1;
    }
    let pairs: Vec<[u32; 2]> = set.to_vec();
    assert forall|pair: [u32; 2]| #[trigger] pairs@.contains(pair) <==> pair_joined(
        joints@,
        pair,
        joints@.len() as int,
    ) by {
        assert(set.holds(pair) <==> pair_joined(joints@, pair, joints@.len() as int));
    }
    pairs
}

/// Lists the connected components of compounds.
fn list_components(edges: &Vec<JointEdge>, count: usize) -> (components: Vec<Vec<u32>>)
    requires
        edges_within(edges@, count as int),
        count <= u32::MAX,
    ensures
        components_of(edges@, count as nat, components@),
        components_within(components@, count as int),
        components@.len() <= count,
{
    let ghost links = all_links(edges@);
    let mut sets = DisjointSet::new(count);
    proof {
        separate_rows_represent_no_links(count as nat);
        assert(links.take(0) =~= Seq::<Link>::empty());
    }
    let mut k: usize = 0;
    while k < edges.len()
        invariant
            k <= edges@.len(),
            edges_within(edges@, count as int),
            links == all_links(edges@),
            sets.wf(),
            sets@.len() == count,
            represents(sets@, links.take(k as int)),
        decreases edges@.len() - k,
    {
        let edge: JointEdge = edges[k];
        assert(edges@[k as int].a < count);
        proof {
            merging_represents_one_more_link(
                sets@,
                links.take(k as int),
                edge.a as int,
                edge.b as int,
            );
            assert(links.take(k as int).push(links[k as int]) =~= links.take(k + 1));
        }
        sets.union(edge.a as usize, edge.b as usize);
        k += 1;
    }
    assert(links.take(links.len() as int) =~= links);
    let classes: Classes = Classes::of(&sets, count);
    let mut components: Vec<Vec<u32>> = Vec::new();
    let mut c: usize = 0;
    while c < classes.groups.len()
        invariant
            classes.lists(sets@),
            sets@.len() == count,
            count <= u32::MAX,
            c <= classes.groups@.len(),
            components@.len() == c,
            forall|d: int|
                #![trigger components@[d]]
                0 <= d < c ==> components@[d]@.len() == classes.groups@[d]@.len(),
            forall|d: int, i: int|
                #![trigger components@[d]@[i]]
                0 <= d < c && 0 <= i < components@[d]@.len() ==> components@[d]@[i]
                    == classes.groups@[d]@[i] && components@[d]@[i] < count,
        decreases classes.groups@.len() - c,
    {
        let group: &Vec<usize> = &classes.groups[c];
        let mut component: Vec<u32> = Vec::new();
        let mut i: usize = 0;
        while i < group.len()
            invariant
                classes.lists(sets@),
                sets@.len() == count,
                count <= u32::MAX,
                c < classes.groups@.len(),
                *group == classes.groups@[c as int],
                i <= group@.len(),
                component@.len() == i,
                forall|k: int|
                    #![trigger component@[k]]
                    0 <= k < i ==> component@[k] == group@[k] && component@[k] < count,
            decreases group@.len() - i,
        {
            assert(classes.groups@[c as int]@[i as int] < count);
            component.push(group[i] as u32);
            i += 1;
        }
        components.push(component);
        c += 1;
    }
    proof {
        assert(components_list(classes, components@));
        assert(sets@.len() == count as nat && represents(sets@, all_links(edges@))
            && classes.lists(sets@));
    }
    components
}

impl ConstructionGraph {
    /// Lays out the joints between compounds and the forest they make.
    pub fn lay_out(&self, plan: &CompoundPlan, masses: &Vec<Scalar>) -> (out: Result<
        CompiledTopology,
        TopologyError,
    >)
        requires
            self.wf(),
            self.references_live(),
            plan.heads@ == self.all_heads(),
            self.groups_rows(plan.compound_of@, plan.compounds@.len() as int),
            plan.compounds@.len() <= u32::MAX,
            self.bearings.rows.values@.len() <= u32::MAX,
            masses@.len() == plan.compounds@.len(),
        ensures
            match self.first_locked_drive(
                plan.compound_of@,
                self.bearings.rows.values@.len() as int,
            ) {
                Some(i) => out == Err::<CompiledTopology, TopologyError>(
                    TopologyError::SelfBearing {
                        bearing: self.bearings.rows.keys@[i],
                        compound: self.side_a(plan.compound_of@, i),
                    },
                ),
                None => match out {
                    Ok(out) => self.laid_out(*plan, masses@, out) && first_driven_closure(
                        out.joints.joints@,
                        tree_marks(
                            joint_edges(out.joints.joints@),
                            fixed_rows(plan.compounds@),
                        ),
                        out.joints.joints@.len() as int,
                    ) is None,
                    Err(fault) => self.strands_drive(*plan, fault),
                },
            },
    {
        let joints: PhysicalJoints = match self.collapse_joints(plan) {
            Ok(joints) => joints,
            Err(fault) => {
                return Err(fault);
            },
        };
        let ghost n = self.bearings.rows.values@.len() as int;
        let ghost fixed_spec = fixed_rows(plan.compounds@);
        proof {
            assert forall|k: int| #![trigger joints.joints@[k]]
                0 <= k < joints.joints@.len() implies joints.joints@[k].a < plan.compounds@.len()
                && joints.joints@[k].b < plan.compounds@.len() && joints.joints@[k].kept < n by {
                let first = self.opening_rows(plan.compound_of@, n)[k];
                assert(self.describes_joint(plan.compound_of@, first, joints.joints@[k], n));
                self.lemma_sides_within(
                    plan.compound_of@,
                    plan.compounds@.len() as int,
                    joints.joints@[k].kept as int,
                );
            }
            lemma_few_openings(self, plan.compound_of@, n);
        }
        let mut edges: Vec<JointEdge> = Vec::new();
        let mut k: usize = 0;
        while k < joints.joints.len()
            invariant
                k <= joints.joints@.len(),
                edges@ =~= joint_edges(joints.joints@).take(k as int),
            decreases joints.joints@.len() - k,
        {
            let joint: PhysicalJoint = joints.joints[k];
            edges.push(JointEdge { a: joint.a, b: joint.b, driven: joint.driven });
            k += 1;
        }
        assert(edges@ =~= joint_edges(joints.joints@));
        let mut fixed: Vec<bool> = Vec::new();
        let mut c: usize = 0;
        while c < plan.compounds.len()
            invariant
                c <= plan.compounds@.len(),
                fixed@ =~= fixed_rows(plan.compounds@).take(c as int),
            decreases plan.compounds@.len() - c,
        {
            fixed.push(plan.compounds[c].is_static);
            c += 1;
        }
        assert(fixed@ =~= fixed_spec);
        let count: usize = plan.compounds.len();
        proof {
            assert forall|e: int| #![trigger edges@[e]] 0 <= e < edges@.len() implies edges@[e].a
                < count && edges@[e].b < count by {
                assert(joints.joints@[e].a < count);
            }
        }
        let marks: Vec<bool> = choose_tree_edges(&edges, &fixed);
        let ghost marks_spec = tree_marks(edges@, fixed@);
        assert(marks@ =~= marks_spec);
        let (bearings, tree_bearings, closure_bearings): (
            Vec<CompiledBearing>,
            Vec<BearingId>,
            Vec<BearingId>,
        ) = match self.number_joints(&joints.joints, &marks) {
            Ok(rows) => rows,
            Err(fault) => {
                proof {
                    let at = first_driven_closure(
                        joints.joints@,
                        marks_spec,
                        joints.joints@.len() as int,
                    );
                    assert(at is Some);
                    assert(self.strands(*plan, joints, at->0));
                }
                return Err(fault);
            },
        };
        let mechanism_components: Vec<Vec<u32>> = list_components(&edges, count);
        let roots: Vec<Vec<u32>> = component_roots(&mechanism_components, &fixed, masses);
        proof {
            let (classes, labels) = choose|classes: Classes, labels: Seq<int>|
                #![trigger classes.lists(labels), components_list(classes, mechanism_components@)]
                labels.len() == count && represents(labels, all_links(edges@)) && classes.lists(
                    labels,
                ) && components_list(classes, mechanism_components@);
            assert forall|e: int| #![trigger bearings@[e]] 0 <= e < bearings@.len() implies bearings@[e].compound_a
                == edges@[e].a && bearings@[e].compound_b == edges@[e].b
                && bearings@[e].coordinate_index == coordinate_of(marks_spec, e)
                && bearings@[e].compound_a < count && bearings@[e].compound_b < count by {
                assert(joints.joints@[e].a < count);
            }
            assert(rows_describe(edges@, fixed@, bearings@));
            every_body_has_one_root(
                edges@,
                fixed@,
                masses@,
                bearings@,
                classes,
                labels,
                mechanism_components@,
                roots@,
            );
        }
        let (mut body_parents, order): (Vec<MechanismBodyTopology>, Vec<usize>) = hang_forest(
            &bearings,
            &roots,
            count,
        );
        let ghost before = body_parents@;
        let contraction_rounds: Vec<Vec<u32>> = number_postorder(&mut body_parents);
        proof {
            lemma_hangs_renumbered(bearings@, roots@, before, body_parents@, order@);
            assert forall|i: int| #![trigger joints.joint_of@[i]]
                0 <= i < joints.joint_of@.len() implies (match joints.joint_of@[i] {
                Some(k) => k < bearings@.len(),
                None => true,
            }) by {}
        }
        let bearing_coordinates: OrderedMap<BearingId, u32> = self.map_coordinates(
            &joints.joint_of,
            &bearings,
        );
        let collision_suppression: Vec<[u32; 2]> = suppressed_pairs(&joints.joints);
        let loop_topology = LoopTopology {
            tree_bearings,
            closure_bearings,
            mechanism_components,
            component_roots: roots,
            body_parents,
            contraction_rounds,
            bearing_coordinates,
        };
        let out = CompiledTopology { joints, bearings, loop_topology, collision_suppression };
        proof {
            assert(maps_coordinates(
                self.bearings.rows.keys@,
                out.joints.joint_of@,
                marks_spec,
                out.loop_topology.bearing_coordinates@,
                out.joints.joint_of@.len() as int,
            ));
            assert(hung(bearings@, roots@, body_parents@));
        }
        Ok(out)
    }

    /// Whether joint `k` is the first driven one that closes a loop.
    pub open spec fn strands(&self, plan: CompoundPlan, joints: PhysicalJoints, k: int) -> bool {
        &&& self.collapsed(
            plan.compound_of@,
            joints.joints@,
            joints.joint_of@,
            self.bearings.rows.values@.len() as int,
        )
        &&& first_driven_closure(
            joints.joints@,
            tree_marks(joint_edges(joints.joints@), fixed_rows(plan.compounds@)),
            joints.joints@.len() as int,
        ) == Some(k)
    }

    /// Whether `fault` names the first driven joint that closes a loop.
    pub open spec fn strands_drive(&self, plan: CompoundPlan, fault: TopologyError) -> bool {
        exists|joints: PhysicalJoints, k: int| #[trigger]
            self.strands(plan, joints, k) && fault == (TopologyError::DrivenClosureBearing {
                bearing: self.bearings.rows.keys@[joints.joints@[k].kept as int],
            })
    }
}

/// There are no more physical joints than joint rows.
pub proof fn lemma_few_openings(graph: &ConstructionGraph, compound_of: Seq<u32>, count: int)
    requires
        0 <= count,
    ensures
        graph.opening_rows(compound_of, count).len() <= count,
    decreases count,
{
    if count > 0 {
        lemma_few_openings(graph, compound_of, count - 1);
    }
}

/// Where a marked joint stands in the list of marked ones.
proof fn lemma_marked_place(
    bearings: Seq<CompiledBearing>,
    marks: Seq<bool>,
    mark: bool,
    count: int,
    k: int,
)
    requires
        0 <= k < count,
        marks[k] == mark,
    ensures
        ({
            let at = bearings_where(bearings, marks, mark, k).len() as int;
            let listed = bearings_where(bearings, marks, mark, count);
            &&& at < listed.len()
            &&& listed[at] == bearings[k].source_bearing
        }),
        mark ==> bearings_where(bearings, marks, mark, k).len() == marked_before(marks, k),
        0 <= marked_before(marks, k) <= k,
    decreases count,
{
    lemma_marked_count(bearings, marks, k);
    if k < count - 1 {
        lemma_marked_place(bearings, marks, mark, count - 1, k);
    }
}

/// As many joints are listed as are marked.
proof fn lemma_marked_count(bearings: Seq<CompiledBearing>, marks: Seq<bool>, count: int)
    requires
        0 <= count,
    ensures
        bearings_where(bearings, marks, true, count).len() == marked_before(marks, count),
        0 <= marked_before(marks, count) <= count,
    decreases count,
{
    if count > 0 {
        lemma_marked_count(bearings, marks, count - 1);
    }
}

/// Every joint row connects the two bodies of its joint; the tree joints are
/// numbered in their order, and a joint's number is its place among them. A
/// joint without a number closes a loop.
pub proof fn tree_joints_are_numbered_in_order(
    graph: &ConstructionGraph,
    plan: CompoundPlan,
    masses: Seq<Scalar>,
    out: CompiledTopology,
    k: int,
)
    requires
        graph.laid_out(plan, masses, out),
        0 <= k < out.bearings@.len() <= u32::MAX,
    ensures
        ({
            let row = out.bearings@[k];
            let joint = out.joints.joints@[k];
            let loops = out.loop_topology;
            &&& out.bearings@.len() == out.joints.joints@.len()
            &&& row.compound_a == joint.a && row.compound_b == joint.b
            &&& row.source_bearing == graph.bearings.rows.keys@[joint.kept as int]
            &&& row.coordinate_index is Some ==> row.coordinate_index->0 < loops.tree_bearings@.len()
                && loops.tree_bearings@[row.coordinate_index->0 as int] == row.source_bearing
            &&& row.coordinate_index is None ==> loops.closure_bearings@.contains(
                row.source_bearing,
            )
            &&& loops.tree_bearings@.len() + loops.closure_bearings@.len() == out.bearings@.len()
        }),
{
    let joints = out.joints.joints@;
    let marks = tree_marks(joint_edges(joints), fixed_rows(plan.compounds@));
    let n = joints.len() as int;
    let row = out.bearings@[k];
    lemma_marked_place(out.bearings@, marks, marks[k], n, k);
    if !marks[k] {
        let at = bearings_where(out.bearings@, marks, false, k).len() as int;
        assert(out.loop_topology.closure_bearings@[at] == row.source_bearing);
    }
    lemma_marks_split(out.bearings@, marks, n);
}

/// Every joint is either in the tree or closes a loop.
proof fn lemma_marks_split(bearings: Seq<CompiledBearing>, marks: Seq<bool>, count: int)
    requires
        0 <= count,
    ensures
        bearings_where(bearings, marks, true, count).len() + bearings_where(
            bearings,
            marks,
            false,
            count,
        ).len() == count,
    decreases count,
{
    if count > 0 {
        lemma_marks_split(bearings, marks, count - 1);
    }
}

/// A joint row moves the coordinate of the joint that it describes, and none
/// where that closes a loop or where both its sides are one body.
pub proof fn rows_move_their_joints_coordinate(
    graph: &ConstructionGraph,
    plan: CompoundPlan,
    masses: Seq<Scalar>,
    out: CompiledTopology,
    i: int,
)
    requires
        graph.laid_out(plan, masses, out),
        0 <= i < graph.bearings.rows.values@.len(),
        graph.bearings.rows.keys@.len() == graph.bearings.rows.values@.len(),
    ensures
        ({
            let coordinates = out.loop_topology.bearing_coordinates@;
            let id = graph.bearings.rows.keys@[i];
            match out.joints.joint_of@[i] {
                None => !coordinates.dom().contains(id),
                Some(k) => match out.bearings@[k as int].coordinate_index {
                    None => !coordinates.dom().contains(id),
                    Some(coordinate) => coordinates.dom().contains(id) && coordinates[id]
                        == coordinate,
                },
            }
        }),
{
    let id = graph.bearings.rows.keys@[i];
    match out.joints.joint_of@[i] {
        None => {},
        Some(k) => {
            let row = out.bearings@[k as int];
        },
    }
}

/// A joint connects a pair in ascending order.
proof fn lemma_joins_pair(joint: PhysicalJoint, pair: [u32; 2])
    ensures
        joins_pair(joint, pair) <==> pair@[0] <= pair@[1] && ((joint.a == pair@[0] && joint.b
            == pair@[1]) || (joint.b == pair@[0] && joint.a == pair@[1])),
{
    let low = seq![joint.a, joint.b];
    let high = seq![joint.b, joint.a];
    assert(low[0] == joint.a && low[1] == joint.b);
    assert(high[0] == joint.b && high[1] == joint.a);
    assert(pair@.len() == 2);
    if joint.a == pair@[0] && joint.b == pair@[1] {
        assert(pair@ =~= low);
    }
    if joint.b == pair@[0] && joint.a == pair@[1] {
        assert(pair@ =~= high);
    }
}

/// Exactly the bodies that a joint connects do not collide: pairs are listed
/// lower body first.
pub proof fn joined_bodies_do_not_collide(
    graph: &ConstructionGraph,
    plan: CompoundPlan,
    masses: Seq<Scalar>,
    out: CompiledTopology,
    pair: [u32; 2],
    k: int,
)
    requires
        graph.laid_out(plan, masses, out),
    ensures
        out.collision_suppression@.contains(pair) ==> pair@[0] <= pair@[1] && exists|j: int|
            #![trigger out.joints.joints@[j]]
            0 <= j < out.joints.joints@.len() && ((out.joints.joints@[j].a == pair@[0]
                && out.joints.joints@[j].b == pair@[1]) || (out.joints.joints@[j].b == pair@[0]
                && out.joints.joints@[j].a == pair@[1])),
        0 <= k < out.joints.joints@.len() && pair@[0] <= pair@[1] && ((out.joints.joints@[k].a
            == pair@[0] && out.joints.joints@[k].b == pair@[1]) || (out.joints.joints@[k].b
            == pair@[0] && out.joints.joints@[k].a == pair@[1]))
            ==> out.collision_suppression@.contains(pair),
{
    let joints = out.joints.joints@;
    assert(out.collision_suppression@.contains(pair) <==> pair_joined(
        joints,
        pair,
        joints.len() as int,
    ));
    if pair_joined(joints, pair, joints.len() as int) {
        let j = choose|j: int| 0 <= j < joints.len() && joins_pair(#[trigger] joints[j], pair);
        lemma_joins_pair(joints[j], pair);
    }
    if 0 <= k < joints.len() {
        lemma_joins_pair(joints[k], pair);
        if joins_pair(joints[k], pair) {
            assert(pair_joined(joints, pair, joints.len() as int));
        }
    }
}

/// A construction is refused for a loop exactly when a driven joint closes one,
/// and the first such joint is told.
pub proof fn the_first_driven_closure_is_told(
    joints: Seq<PhysicalJoint>,
    marks: Seq<bool>,
    count: int,
    k: int,
)
    requires
        0 <= k < count,
    ensures
        match first_driven_closure(joints, marks, count) {
            Some(told) => told < count && (k < told ==> marks[k] || !joints[k].driven) && (k == told
                ==> !marks[k] && joints[k].driven),
            None => marks[k] || !joints[k].driven,
        },
    decreases count,
{
    if k < count - 1 {
        the_first_driven_closure_is_told(joints, marks, count - 1, k);
    } else {
        lemma_closure_below(joints, marks, count - 1);
    }
}

/// A closure that is told stands among the joints.
proof fn lemma_closure_below(joints: Seq<PhysicalJoint>, marks: Seq<bool>, count: int)
    requires
        0 <= count,
    ensures
        first_driven_closure(joints, marks, count) is Some ==> first_driven_closure(
            joints,
            marks,
            count,
        )->0 < count,
    decreases count,
{
    if count > 0 {
        lemma_closure_below(joints, marks, count - 1);
    }
}

} // verus!
