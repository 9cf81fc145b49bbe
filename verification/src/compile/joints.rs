//! Physical joints: joint rows between compounds, with rows that describe the
//! same joint collapsed into one.

use vstd::prelude::*;

use super::compounds::CompoundPlan;
use super::grouping::{head_key, head_of, head_position, lemma_heads};
use super::model::TopologyError;
use crate::graph::ConstructionGraph;
use crate::ids::BearingId;
use crate::parts::{BearingSpec, FaceOwner, JointHardware, PistonMount};
use crate::scalar::{Scalar, Triple};

verus! {

/// What tells hardware of one joint from another.
#[derive(Clone, Copy, Debug, PartialEq, Eq, Structural)]
pub struct HardwareKey {
    /// Family of the hardware.
    pub family: u32,
    /// Size within the family.
    pub size: u32,
    /// Mounting direction.
    pub mount: Triple,
    /// Stage count or mounting face.
    pub detail: u8,
}

/// No direction.
pub open spec fn no_mount() -> Triple {
    Triple { x: Scalar { bits: 0 }, y: Scalar { bits: 0 }, z: Scalar { bits: 0 } }
}

/// What tells one piece of hardware from another at the same place.
pub open spec fn hardware_key_of(hardware: JointHardware) -> HardwareKey {
    match hardware {
        JointHardware::Rotational => HardwareKey {
            family: 0,
            size: 0,
            mount: no_mount(),
            detail: 0,
        },
        JointHardware::Linear { width, mount_normal, face } => HardwareKey {
            family: 1,
            size: width.bits,
            mount: mount_normal,
            detail: face,
        },
        JointHardware::Suspension => HardwareKey {
            family: 2,
            size: 0,
            mount: no_mount(),
            detail: 0,
        },
        JointHardware::Piston { blocks, stages, mount } => HardwareKey {
            family: 3,
            size: blocks as u32,
            mount: match mount {
                PistonMount::End => no_mount(),
                PistonMount::Side { mount_normal } => mount_normal,
            },
            detail: stages,
        },
    }
}

/// What tells one piece of hardware from another at the same place.
fn hardware_key(hardware: JointHardware) -> (key: HardwareKey)
    ensures
        key == hardware_key_of(hardware),
{
    let nowhere = Triple {
        x: Scalar { bits: 0 },
        y: Scalar { bits: 0 },
        z: Scalar { bits: 0 },
    };
    match hardware {
        JointHardware::Rotational => HardwareKey { family: 0, size: 0, mount: nowhere, detail: 0 },
        JointHardware::Linear { width, mount_normal, face } => HardwareKey {
            family: 1,
            size: width.bits,
            mount: mount_normal,
            detail: face,
        },
        JointHardware::Suspension => HardwareKey { family: 2, size: 0, mount: nowhere, detail: 0 },
        JointHardware::Piston { blocks, stages, mount } => HardwareKey {
            family: 3,
            size: blocks as u32,
            mount: match mount {
                PistonMount::End => nowhere,
                PistonMount::Side { mount_normal } => mount_normal,
            },
            detail: stages,
        },
    }
}

/// One physical joint.
#[derive(Clone, Copy, Debug, PartialEq, Eq, Structural)]
pub struct PhysicalJoint {
    /// Joint row that opens the joint.
    pub first: usize,
    /// Joint row that stands for it.
    pub kept: usize,
    /// Source compound row.
    pub a: u32,
    /// Target compound row.
    pub b: u32,
    /// Whether a drive is wired to the row that stands for it.
    pub driven: bool,
}

/// Physical joints of a construction.
#[derive(Debug)]
pub struct PhysicalJoints {
    /// Joints in the order of their first row.
    pub joints: Vec<PhysicalJoint>,
    /// The joint that each joint row describes; none of a row inside one compound.
    pub joint_of: Vec<Option<usize>>,
}

impl ConstructionGraph {
    /// Whether a drive is wired to a joint.
    pub open spec fn wired(&self, bearing: BearingId) -> bool {
        exists|k: int|
            0 <= k < self.drive_links.rows.values@.len() && (
            #[trigger] self.drive_links.rows.values@[k]).bearing == bearing
    }

    /// Whether a drive is wired to the joint in row `i`.
    pub open spec fn row_wired(&self, i: int) -> bool {
        self.wired(self.bearings.rows.keys@[i])
    }

    /// Compound that carries the source of joint row `i`.
    pub open spec fn side_a(&self, compound_of: Seq<u32>, i: int) -> u32 {
        compound_of[self.dense(self.bearings.rows.values@[i].source.owner->Part_0)]
    }

    /// Compound on the far side of joint row `i`: its head's, or its target's.
    pub open spec fn side_b(&self, compound_of: Seq<u32>, i: int) -> u32 {
        let bearing = self.bearings.rows.values@[i];
        if bearing.kind.owns_head {
            compound_of[self.parts.rows.keys@.len() + self.all_heads().index_of(head_of(bearing))]
        } else {
            compound_of[self.dense(bearing.target->0.owner->Part_0)]
        }
    }

    /// Whether joint row `i` has both sides in one compound.
    pub open spec fn locked(&self, compound_of: Seq<u32>, i: int) -> bool {
        self.side_a(compound_of, i) == self.side_b(compound_of, i)
    }

    /// Whether two joint rows describe the same physical joint.
    pub open spec fn same_joint(&self, compound_of: Seq<u32>, i: int, j: int) -> bool {
        let p = self.bearings.rows.values@[i];
        let q = self.bearings.rows.values@[j];
        &&& self.side_a(compound_of, i) == self.side_a(compound_of, j)
        &&& self.side_b(compound_of, i) == self.side_b(compound_of, j)
        &&& p.shared_anchor == q.shared_anchor
        &&& p.axis == q.axis
        &&& p.kind.lower == q.kind.lower
        &&& p.kind.upper == q.kind.upper
        &&& hardware_key_of(p.kind.hardware) == hardware_key_of(q.kind.hardware)
    }

    /// Whether joint row `i` is free and no earlier row describes its joint.
    pub open spec fn opens_joint(&self, compound_of: Seq<u32>, i: int) -> bool {
        !self.locked(compound_of, i) && forall|j: int|
            0 <= j < i && !self.locked(compound_of, j) ==> !#[trigger] self.same_joint(
                compound_of,
                j,
                i,
            )
    }

    /// The rows among the first `count` that open a joint.
    pub open spec fn opening_rows(&self, compound_of: Seq<u32>, count: int) -> Seq<int>
        decreases count,
    {
        if count <= 0 {
            Seq::empty()
        } else if self.opens_joint(compound_of, count - 1) {
            self.opening_rows(compound_of, count - 1).push(count - 1)
        } else {
            self.opening_rows(compound_of, count - 1)
        }
    }

    /// Whether row `i` describes the joint that row `first` opens and carries a drive.
    pub open spec fn drives_joint(&self, compound_of: Seq<u32>, first: int, i: int) -> bool {
        !self.locked(compound_of, i) && self.same_joint(compound_of, first, i) && self.row_wired(i)
    }

    /// Whether `kept` stands for the joint that `first` opens among the first
    /// `count` rows: its first driven row, or its first row when none is driven.
    pub open spec fn represents_joint(
        &self,
        compound_of: Seq<u32>,
        first: int,
        kept: int,
        count: int,
    ) -> bool {
        if exists|i: int| 0 <= i < count && #[trigger] self.drives_joint(compound_of, first, i) {
            &&& 0 <= kept < count
            &&& self.drives_joint(compound_of, first, kept)
            &&& forall|i: int|
                0 <= i < kept ==> !#[trigger] self.drives_joint(compound_of, first, i)
        } else {
            kept == first
        }
    }

    /// Whether `joints` describes the joint that row `first` opens.
    pub open spec fn describes_joint(
        &self,
        compound_of: Seq<u32>,
        first: int,
        joint: PhysicalJoint,
        count: int,
    ) -> bool {
        &&& joint.first == first
        &&& 0 <= joint.kept < count
        &&& self.represents_joint(compound_of, first, joint.kept as int, count)
        &&& self.same_joint(compound_of, first, joint.kept as int)
        &&& joint.a == self.side_a(compound_of, first)
        &&& joint.b == self.side_b(compound_of, first)
        &&& joint.driven == self.row_wired(joint.kept as int)
    }

    /// Whether `joints` lists the joints of the first `count` rows, and says
    /// which of them each row describes.
    pub open spec fn collapsed(
        &self,
        compound_of: Seq<u32>,
        joints: Seq<PhysicalJoint>,
        joint_of: Seq<Option<usize>>,
        count: int,
    ) -> bool {
        &&& joints.len() == self.opening_rows(compound_of, count).len()
        &&& forall|k: int|
            #![trigger joints[k]]
            0 <= k < joints.len() ==> self.describes_joint(
                compound_of,
                self.opening_rows(compound_of, count)[k],
                joints[k],
                count,
            )
        &&& joint_of.len() == count
        &&& forall|i: int|
            #![trigger joint_of[i]]
            0 <= i < count ==> match joint_of[i] {
                Some(k) => {
                    &&& !self.locked(compound_of, i)
                    &&& k < joints.len()
                    &&& self.same_joint(compound_of, joints[k as int].first as int, i)
                },
                None => self.locked(compound_of, i),
            }
    }

    /// The first joint row that a drive is wired to in vain.
    pub open spec fn first_locked_drive(&self, compound_of: Seq<u32>, count: int) -> Option<int>
        decreases count,
    {
        if count <= 0 {
            None
        } else {
            match self.first_locked_drive(compound_of, count - 1) {
                Some(i) => Some(i),
                None => if self.locked(compound_of, count - 1) && self.row_wired(count - 1) {
                    Some(count - 1)
                } else {
                    None
                },
            }
        }
    }

    /// Whether every row and head has a compound.
    pub open spec fn rows_have_compounds(&self, plan: CompoundPlan) -> bool {
        &&& plan.heads@ == self.all_heads()
        &&& plan.compound_of@.len() == self.node_count()
    }

    /// Whether a drive is wired to a joint.
    pub fn is_wired(&self, bearing: BearingId) -> (wired: bool)
        ensures
            wired == self.wired(bearing),
    {
        let mut k: usize = 0;
        while k < self.drive_links.rows.values.len()
            invariant
                k <= self.drive_links.rows.values@.len(),
                forall|j: int|
                    #![trigger self.drive_links.rows.values@[j]]
                    0 <= j < k ==> self.drive_links.rows.values@[j].bearing != bearing,
            decreases self.drive_links.rows.values@.len() - k,
        {
            if self.drive_links.rows.values[k].bearing == bearing {
                assert(self.drive_links.rows.values@[k as int].bearing == bearing);
                return true;
            }
            k += 1;
        }
        false
    }

    /// Compounds on the two sides of joint row `i`.
    fn joint_sides(&self, plan: &CompoundPlan, i: usize) -> (sides: (u32, u32))
        requires
            self.wf(),
            self.references_live(),
            self.rows_have_compounds(*plan),
            i < self.bearings.rows.values@.len(),
        ensures
            sides.0 == self.side_a(plan.compound_of@, i as int),
            sides.1 == self.side_b(plan.compound_of@, i as int),
    {
        let bearing: BearingSpec = self.bearings.rows.values[i];
        let rows: usize = plan.compound_of.len();
        let parts: usize = self.parts.rows.keys.len();
        proof {
            assert(self.bearing_live(self.bearings.rows.values@[i as int]));
            lemma_heads(self, self.bearings.rows.values@.len() as int);
        }
        let a: u32 = match bearing.source.owner {
            FaceOwner::Part(part) => plan.compound_of[self.dense_row(part)],
            FaceOwner::Ground => 0,
        };
        let b: u32 = if bearing.kind.owns_head {
            match head_position(&plan.heads, head_key(&bearing)) {
                Some(at) => {
                    proof {
                        let heads = self.all_heads();
                        let k = heads.index_of(head_of(bearing));
                        assert(heads[k] == heads[at as int]);
                    }
                    plan.compound_of[parts + at]
                },
                None => 0,
            }
        } else {
            match bearing.target {
                Some(face) => match face.owner {
                    FaceOwner::Part(part) => plan.compound_of[self.dense_row(part)],
                    FaceOwner::Ground => 0,
                },
                None => 0,
            }
        };
        (a, b)
    }

    /// Whether rows `i` and `j`, between the same compounds, describe one joint.
    fn rows_agree(&self, i: usize, j: usize) -> (same: bool)
        requires
            i < self.bearings.rows.values@.len(),
            j < self.bearings.rows.values@.len(),
        ensures
            forall|compound_of: Seq<u32>|
                #![trigger self.same_joint(compound_of, i as int, j as int)]
                self.side_a(compound_of, i as int) == self.side_a(compound_of, j as int)
                    && self.side_b(compound_of, i as int) == self.side_b(compound_of, j as int)
                    ==> same == self.same_joint(compound_of, i as int, j as int),
    {
        let p: BearingSpec = self.bearings.rows.values[i];
        let q: BearingSpec = self.bearings.rows.values[j];
        p.shared_anchor == q.shared_anchor && p.axis == q.axis && p.kind.lower == q.kind.lower
            && p.kind.upper == q.kind.upper && hardware_key(p.kind.hardware) == hardware_key(
            q.kind.hardware,
        )
    }

    /// The listed joint that row `i` describes.
    fn find_joint(&self, plan: &CompoundPlan, joints: &Vec<PhysicalJoint>, i: usize, a: u32, b: u32) -> (
        at: Option<usize>)
        requires
            i < self.bearings.rows.values@.len(),
            a == self.side_a(plan.compound_of@, i as int),
            b == self.side_b(plan.compound_of@, i as int),
            forall|k: int|
                #![trigger joints@[k]]
                0 <= k < joints@.len() ==> joints@[k].first < i && joints@[k].a == self.side_a(
                    plan.compound_of@,
                    joints@[k].first as int,
                ) && joints@[k].b == self.side_b(plan.compound_of@, joints@[k].first as int),
        ensures
            match at {
                Some(k) => k < joints@.len() && self.same_joint(
                    plan.compound_of@,
                    joints@[k as int].first as int,
                    i as int,
                ),
                None => forall|k: int|
                    #![trigger joints@[k]]
                    0 <= k < joints@.len() ==> !self.same_joint(
                        plan.compound_of@,
                        joints@[k].first as int,
                        i as int,
                    ),
            },
    {
        let mut k: usize = 0;
        while k < joints.len()
            invariant
                i < self.bearings.rows.values@.len(),
                a == self.side_a(plan.compound_of@, i as int),
                b == self.side_b(plan.compound_of@, i as int),
                k <= joints@.len(),
                forall|k: int|
                    #![trigger joints@[k]]
                    0 <= k < joints@.len() ==> joints@[k].first < i && joints@[k].a == self.side_a(
                        plan.compound_of@,
                        joints@[k].first as int,
                    ) && joints@[k].b == self.side_b(
                        plan.compound_of@,
                        joints@[k].first as int,
                    ),
                forall|j: int|
                    #![trigger joints@[j]]
                    0 <= j < k ==> !self.same_joint(
                        plan.compound_of@,
                        joints@[j].first as int,
                        i as int,
                    ),
            decreases joints@.len() - k,
        {
            let joint: PhysicalJoint = joints[k];
            assert(joints@[k as int].first < i);
            if joint.a == a && joint.b == b && self.rows_agree(joint.first, i) {
                assert(self.same_joint(plan.compound_of@, joint.first as int, i as int));
                return Some(k);
            }
            k += 1;
        }
        None
    }
}

/// Opening rows stand in order below the count.
pub proof fn lemma_opening_rows(graph: &ConstructionGraph, compound_of: Seq<u32>, count: int)
    requires
        0 <= count,
    ensures
        graph.opening_rows(compound_of, count).len() <= count,
        forall|k: int|
            #![trigger graph.opening_rows(compound_of, count)[k]]
            0 <= k < graph.opening_rows(compound_of, count).len() ==> 0 <= graph.opening_rows(
                compound_of,
                count,
            )[k] < count && graph.opens_joint(
                compound_of,
                graph.opening_rows(compound_of, count)[k],
            ),
        forall|i: int|
            #![trigger graph.opens_joint(compound_of, i)]
            0 <= i < count && graph.opens_joint(compound_of, i) ==> graph.opening_rows(
                compound_of,
                count,
            ).contains(i),
    decreases count,
{
    if count > 0 {
        lemma_opening_rows(graph, compound_of, count - 1);
        let before = graph.opening_rows(compound_of, count - 1);
        let rows = graph.opening_rows(compound_of, count);
        assert forall|i: int| #![trigger graph.opens_joint(compound_of, i)]
            0 <= i < count && graph.opens_joint(compound_of, i) implies rows.contains(i) by {
            if i < count - 1 {
                assert(before.contains(i));
                let k = before.index_of(i);
                assert(rows[k] == i);
            } else {
                assert(rows[rows.len() - 1] == i);
            }
        }
    }
}

/// Some row opens the joint of any free row.
proof fn lemma_joint_has_opening(graph: &ConstructionGraph, compound_of: Seq<u32>, i: int) -> (first:
    int)
    requires
        0 <= i,
        !graph.locked(compound_of, i),
    ensures
        0 <= first <= i,
        graph.opens_joint(compound_of, first),
        graph.same_joint(compound_of, first, i),
    decreases i,
{
    if graph.opens_joint(compound_of, i) {
        i
    } else {
        let j = choose|j: int|
            0 <= j < i && !graph.locked(compound_of, j) && #[trigger] graph.same_joint(
                compound_of,
                j,
                i,
            );
        let first = lemma_joint_has_opening(graph, compound_of, j);
        first
    }
}

/// A joint row that changes nothing leaves what stands for the joint as it was.
proof fn lemma_represents_next(
    graph: &ConstructionGraph,
    compound_of: Seq<u32>,
    first: int,
    kept: int,
    i: int,
)
    requires
        0 <= first < i,
        0 <= kept < i,
        graph.represents_joint(compound_of, first, kept, i),
        !graph.drives_joint(compound_of, first, i) || graph.drives_joint(
            compound_of,
            first,
            kept,
        ),
    ensures
        graph.represents_joint(compound_of, first, kept, i + 1),
{
    if exists|j: int| 0 <= j < i && #[trigger] graph.drives_joint(compound_of, first, j) {
        let j = choose|j: int| 0 <= j < i && #[trigger] graph.drives_joint(compound_of, first, j);
        assert(0 <= j < i + 1 && graph.drives_joint(compound_of, first, j));
    } else {
        if graph.drives_joint(compound_of, first, i) {
            assert(graph.drives_joint(compound_of, first, kept));
            assert(false);
        }
        assert forall|j: int| 0 <= j < i + 1 implies !#[trigger] graph.drives_joint(
            compound_of,
            first,
            j,
        ) by {}
    }
}

impl ConstructionGraph {
    /// Lists the physical joints, or names the first drive that a weld locks.
    pub fn collapse_joints(&self, plan: &CompoundPlan) -> (joints: Result<
        PhysicalJoints,
        TopologyError,
    >)
        requires
            self.wf(),
            self.references_live(),
            self.rows_have_compounds(*plan),
        ensures
            match self.first_locked_drive(
                plan.compound_of@,
                self.bearings.rows.values@.len() as int,
            ) {
                Some(i) => joints == Err::<PhysicalJoints, TopologyError>(
                    TopologyError::SelfBearing {
                        bearing: self.bearings.rows.keys@[i],
                        compound: self.side_a(plan.compound_of@, i),
                    },
                ),
                None => joints is Ok && self.collapsed(
                    plan.compound_of@,
                    joints->Ok_0.joints@,
                    joints->Ok_0.joint_of@,
                    self.bearings.rows.values@.len() as int,
                ),
            },
    {
        let ghost compound_of = plan.compound_of@;
        let ghost n = self.bearings.rows.values@.len() as int;
        let mut joints: Vec<PhysicalJoint> = Vec::new();
        let mut joint_of: Vec<Option<usize>> = Vec::new();
        let mut i: usize = 0;
        while i < self.bearings.rows.values.len()
            invariant
                self.wf(),
                self.references_live(),
                self.rows_have_compounds(*plan),
                compound_of == plan.compound_of@,
                n == self.bearings.rows.values@.len(),
                i <= n,
                self.first_locked_drive(compound_of, i as int) is None,
                self.collapsed(compound_of, joints@, joint_of@, i as int),
            decreases n - i,
        {
            let (a, b): (u32, u32) = self.joint_sides(plan, i);
            let wired: bool = self.is_wired(self.bearings.rows.keys[i]);
            let ghost joints_before = joints@;
            let ghost joint_of_before = joint_of@;
            if a == b {
                if wired {
                    let fault = TopologyError::SelfBearing {
                        bearing: self.bearings.rows.keys[i],
                        compound: a,
                    };
                    proof {
                        lemma_first_locked_stays(self, compound_of, i + 1, n);
                    }
                    return Err(fault);
                }
                joint_of.push(None);
                proof {
                    lemma_collapsed_locked(
                        self,
                        compound_of,
                        joints_before,
                        joint_of_before,
                        i as int,
                    );
                    assert(joint_of@ =~= joint_of_before.push(None));
                }
            } else {
                proof {
                    lemma_opening_rows(self, compound_of, i as int);
                }
                match self.find_joint(plan, &joints, i, a, b) {
                    Some(at) => {
                        let kept: usize = joints[at].kept;
                        if wired && !joints[at].driven {
                            joints.set(
                                at,
                                PhysicalJoint { kept: i, driven: true, ..joints[at] },
                            );
                        }
                        joint_of.push(Some(at));
                        proof {
                            assert(joint_of@ =~= joint_of_before.push(Some(at)));
                            lemma_collapsed_again(
                                self,
                                compound_of,
                                joints_before,
                                joint_of_before,
                                i as int,
                                at,
                                joints@,
                            );
                        }
                    },
                    None => {
                        joint_of.push(Some(joints.len()));
                        joints.push(PhysicalJoint { first: i, kept: i, a, b, driven: wired });
                        proof {
                            assert(joint_of@ =~= joint_of_before.push(
                                Some(joints_before.len() as usize),
                            ));
                            lemma_collapsed_opens(
                                self,
                                compound_of,
                                joints_before,
                                joint_of_before,
                                i as int,
                                joints@[joints_before.len() as int],
                            );
                            assert(joints@ =~= joints_before.push(
                                joints@[joints_before.len() as int],
                            ));
                        }
                    },
                }
            }
            i += 1;
        }
        Ok(PhysicalJoints { joints, joint_of })
    }
}

/// The first locked drive stays the first when more rows are looked at.
proof fn lemma_first_locked_stays(
    graph: &ConstructionGraph,
    compound_of: Seq<u32>,
    i: int,
    n: int,
)
    requires
        0 <= i <= n,
        graph.first_locked_drive(compound_of, i) is Some,
    ensures
        graph.first_locked_drive(compound_of, n) == graph.first_locked_drive(compound_of, i),
    decreases n - i,
{
    if i < n {
        lemma_first_locked_stays(graph, compound_of, i + 1, n);
    }
}

/// A row inside one compound describes no joint.
proof fn lemma_collapsed_locked(
    graph: &ConstructionGraph,
    compound_of: Seq<u32>,
    joints: Seq<PhysicalJoint>,
    joint_of: Seq<Option<usize>>,
    i: int,
)
    requires
        0 <= i,
        graph.collapsed(compound_of, joints, joint_of, i),
        graph.locked(compound_of, i),
    ensures
        graph.collapsed(compound_of, joints, joint_of.push(None), i + 1),
{
    let rows = graph.opening_rows(compound_of, i);
    assert(graph.opening_rows(compound_of, i + 1) == rows);
    lemma_opening_rows(graph, compound_of, i);
    assert forall|k: int| #![trigger joints[k]] 0 <= k < joints.len() implies graph.describes_joint(
        compound_of,
        rows[k],
        joints[k],
        i + 1,
    ) by {
        assert(graph.describes_joint(compound_of, rows[k], joints[k], i));
        lemma_represents_next(graph, compound_of, rows[k], joints[k].kept as int, i);
    }
    let wider = joint_of.push(None);
    assert forall|j: int| #![trigger wider[j]] 0 <= j < i + 1 implies (match wider[j] {
        Some(k) => {
            &&& !graph.locked(compound_of, j)
            &&& k < joints.len()
            &&& graph.same_joint(compound_of, joints[k as int].first as int, j)
        },
        None => graph.locked(compound_of, j),
    }) by {
        if j < i {
            assert(wider[j] == joint_of[j]);
        }
    }
}

/// A free row that no listed joint matches opens one.
proof fn lemma_collapsed_opens(
    graph: &ConstructionGraph,
    compound_of: Seq<u32>,
    joints: Seq<PhysicalJoint>,
    joint_of: Seq<Option<usize>>,
    i: int,
    joint: PhysicalJoint,
)
    requires
        0 <= i,
        joints.len() <= usize::MAX,
        graph.collapsed(compound_of, joints, joint_of, i),
        !graph.locked(compound_of, i),
        forall|k: int|
            #![trigger joints[k]]
            0 <= k < joints.len() ==> !graph.same_joint(compound_of, joints[k].first as int, i),
        joint.first == i,
        joint.kept == i,
        joint.a == graph.side_a(compound_of, i),
        joint.b == graph.side_b(compound_of, i),
        joint.driven == graph.row_wired(i),
    ensures
        graph.collapsed(
            compound_of,
            joints.push(joint),
            joint_of.push(Some(joints.len() as usize)),
            i + 1,
        ),
{
    let rows = graph.opening_rows(compound_of, i);
    lemma_opening_rows(graph, compound_of, i);
    if !graph.opens_joint(compound_of, i) {
        let first = lemma_joint_has_opening(graph, compound_of, i);
        assert(first < i);
        assert(rows.contains(first));
        let k = rows.index_of(first);
        assert(rows[k] == first);
        assert(graph.describes_joint(compound_of, rows[k], joints[k], i));
        assert(false);
    }
    let wider_rows = graph.opening_rows(compound_of, i + 1);
    assert(wider_rows == rows.push(i));
    let wider = joints.push(joint);
    assert forall|k: int| #![trigger wider[k]] 0 <= k < wider.len() implies graph.describes_joint(
        compound_of,
        wider_rows[k],
        wider[k],
        i + 1,
    ) by {
        if k < joints.len() {
            assert(graph.describes_joint(compound_of, rows[k], joints[k], i));
            lemma_represents_next(graph, compound_of, rows[k], joints[k].kept as int, i);
        } else {
            assert(graph.opens_joint(compound_of, i));
            assert(wider_rows[k] == i);
            assert(graph.represents_joint(compound_of, i, i, i + 1)) by {
                assert forall|j: int| 0 <= j < i implies !#[trigger] graph.drives_joint(
                    compound_of,
                    i,
                    j,
                ) by {
                    if graph.drives_joint(compound_of, i, j) {
                        assert(graph.same_joint(compound_of, j, i));
                    }
                }
                if graph.row_wired(i) {
                    assert(graph.drives_joint(compound_of, i, i));
                } else {
                    assert(!graph.drives_joint(compound_of, i, i));
                }
            }
        }
    }
    let wider_of = joint_of.push(Some(joints.len() as usize));
    assert forall|j: int| #![trigger wider_of[j]] 0 <= j < i + 1 implies (match wider_of[j] {
        Some(k) => {
            &&& !graph.locked(compound_of, j)
            &&& k < wider.len()
            &&& graph.same_joint(compound_of, wider[k as int].first as int, j)
        },
        None => graph.locked(compound_of, j),
    }) by {
        if j < i {
            assert(wider_of[j] == joint_of[j]);
        }
    }
}

/// A free row that a listed joint matches only replaces what stands for it.
proof fn lemma_collapsed_again(
    graph: &ConstructionGraph,
    compound_of: Seq<u32>,
    joints: Seq<PhysicalJoint>,
    joint_of: Seq<Option<usize>>,
    i: int,
    at: usize,
    after: Seq<PhysicalJoint>,
)
    requires
        0 <= i <= usize::MAX,
        graph.collapsed(compound_of, joints, joint_of, i),
        !graph.locked(compound_of, i),
        at < joints.len(),
        graph.same_joint(compound_of, joints[at as int].first as int, i),
        after == (if graph.row_wired(i) && !joints[at as int].driven {
            joints.update(
                at as int,
                PhysicalJoint { kept: i as usize, driven: true, ..joints[at as int] },
            )
        } else {
            joints
        }),
    ensures
        graph.collapsed(compound_of, after, joint_of.push(Some(at)), i + 1),
{
    let rows = graph.opening_rows(compound_of, i);
    lemma_opening_rows(graph, compound_of, i);
    let first = rows[at as int];
    assert(graph.describes_joint(compound_of, first, joints[at as int], i));
    assert(!graph.opens_joint(compound_of, i)) by {
        assert(graph.same_joint(compound_of, first, i));
        assert(graph.opens_joint(compound_of, first));
    }
    assert(graph.opening_rows(compound_of, i + 1) == rows);
    assert forall|k: int| #![trigger after[k]] 0 <= k < after.len() implies graph.describes_joint(
        compound_of,
        rows[k],
        after[k],
        i + 1,
    ) by {
        assert(graph.describes_joint(compound_of, rows[k], joints[k], i));
        let kept = joints[k].kept as int;
        assert(graph.opens_joint(compound_of, rows[k]));
        if k == at && graph.row_wired(i) && !joints[k].driven {
            assert(graph.drives_joint(compound_of, first, i));
            assert forall|j: int| 0 <= j < i implies !#[trigger] graph.drives_joint(
                compound_of,
                first,
                j,
            ) by {
                if graph.drives_joint(compound_of, first, j) {
                    assert(graph.drives_joint(compound_of, first, kept));
                }
            }
            assert(graph.represents_joint(compound_of, first, i, i + 1));
        } else {
            if graph.drives_joint(compound_of, rows[k], i) {
                if k != at {
                    let p = rows[k];
                    if p < first {
                        assert(graph.same_joint(compound_of, p, first));
                        assert(graph.opens_joint(compound_of, first));
                    } else if first < p {
                        assert(graph.same_joint(compound_of, first, p));
                    } else {
                        lemma_opening_distinct(graph, compound_of, i, k, at as int);
                    }
                    assert(false);
                }
                assert(joints[k].driven);
                assert(graph.row_wired(kept));
                if kept == first {
                    assert(graph.drives_joint(compound_of, first, kept));
                }
            }
            lemma_represents_next(graph, compound_of, rows[k], kept, i);
        }
    }
    let wider_of = joint_of.push(Some(at));
    assert forall|j: int| #![trigger wider_of[j]] 0 <= j < i + 1 implies (match wider_of[j] {
        Some(k) => {
            &&& !graph.locked(compound_of, j)
            &&& k < after.len()
            &&& graph.same_joint(compound_of, after[k as int].first as int, j)
        },
        None => graph.locked(compound_of, j),
    }) by {
        if j < i {
            assert(wider_of[j] == joint_of[j]);
            if let Some(k) = joint_of[j] {
                assert(after[k as int].first == joints[k as int].first);
            }
        } else {
            assert(after[at as int].first == joints[at as int].first);
        }
    }
}

/// No row opens two joints.
pub proof fn lemma_opening_distinct(
    graph: &ConstructionGraph,
    compound_of: Seq<u32>,
    count: int,
    k: int,
    l: int,
)
    requires
        0 <= count,
        0 <= k < graph.opening_rows(compound_of, count).len(),
        0 <= l < graph.opening_rows(compound_of, count).len(),
        graph.opening_rows(compound_of, count)[k] == graph.opening_rows(compound_of, count)[l],
    ensures
        k == l,
    decreases count,
{
    if count > 0 {
        let before = graph.opening_rows(compound_of, count - 1);
        lemma_opening_rows(graph, compound_of, count - 1);
        if k < before.len() && l < before.len() {
            lemma_opening_distinct(graph, compound_of, count - 1, k, l);
        } else if k < before.len() {
            assert(before[k] < count - 1);
        } else if l < before.len() {
            assert(before[l] < count - 1);
        }
    }
}

/// Hardware is told apart by kind, and within a kind by all that sizes and
/// mounts it: a rail by width, normal and face, a piston by blocks and stages.
pub proof fn hardware_is_told_apart(a: JointHardware, b: JointHardware)
    requires
        hardware_key_of(a) == hardware_key_of(b),
    ensures
        !(a is Piston) ==> a == b,
        a is Piston ==> b is Piston && a->blocks == b->blocks && a->stages == b->stages && (
        a->mount is Side && b->mount is Side ==> a->mount == b->mount),
{
}

/// Rows of one joint lie between the same bodies, at one place along one axis,
/// with the same travel and hardware, and no row of a joint has both sides in
/// one body.
pub proof fn rows_of_a_joint_agree(
    graph: &ConstructionGraph,
    compound_of: Seq<u32>,
    joints: Seq<PhysicalJoint>,
    joint_of: Seq<Option<usize>>,
    count: int,
    i: int,
    j: int,
)
    requires
        0 <= count,
        graph.collapsed(compound_of, joints, joint_of, count),
        0 <= i < count,
        0 <= j < count,
        joint_of[i] is Some,
        joint_of[i] == joint_of[j],
    ensures
        ({
            let p = graph.bearings.rows.values@[i];
            let q = graph.bearings.rows.values@[j];
            &&& p.shared_anchor == q.shared_anchor && p.axis == q.axis
            &&& p.kind.lower == q.kind.lower && p.kind.upper == q.kind.upper
            &&& p.kind.hardware is Rotational <==> q.kind.hardware is Rotational
            &&& !(p.kind.hardware is Piston) ==> p.kind.hardware == q.kind.hardware
            &&& joints[joint_of[i]->0 as int].a == compound_of[graph.dense(
                p.source.owner->Part_0,
            )]
            &&& p.kind.owns_head ==> joints[joint_of[i]->0 as int].b
                == compound_of[graph.parts.rows.keys@.len() + graph.all_heads().index_of(
                head_of(p),
            )]
            &&& !p.kind.owns_head ==> joints[joint_of[i]->0 as int].b == compound_of[graph.dense(
                p.target->0.owner->Part_0,
            )]
            &&& joints[joint_of[i]->0 as int].a != joints[joint_of[i]->0 as int].b
        }),
{
    let k = joint_of[i]->0 as int;
    let first = joints[k].first as int;
    lemma_opening_rows(graph, compound_of, count);
    assert(graph.describes_joint(
        compound_of,
        graph.opening_rows(compound_of, count)[k],
        joints[k],
        count,
    ));
    assert(graph.same_joint(compound_of, first, i));
    let again = joint_of[j];
    assert(graph.same_joint(compound_of, first, j));
    hardware_is_told_apart(
        graph.bearings.rows.values@[i].kind.hardware,
        graph.bearings.rows.values@[j].kind.hardware,
    );
}

/// A free row describes some joint and a locked one none; what stands for a
/// joint is one of its rows: its first, or the first that a drive is wired to.
pub proof fn wired_rows_stand_for_their_joint(
    graph: &ConstructionGraph,
    compound_of: Seq<u32>,
    joints: Seq<PhysicalJoint>,
    joint_of: Seq<Option<usize>>,
    count: int,
    i: int,
)
    requires
        0 <= count,
        graph.collapsed(compound_of, joints, joint_of, count),
        0 <= i < count,
    ensures
        joint_of[i] is None <==> graph.side_a(compound_of, i) == graph.side_b(compound_of, i),
        joint_of[i] is Some ==> {
            let joint = joints[joint_of[i]->0 as int];
            let wired = exists|l: int|
                0 <= l < graph.drive_links.rows.values@.len() && (
                #[trigger] graph.drive_links.rows.values@[l]).bearing
                    == graph.bearings.rows.keys@[i];
            &&& joint.first <= i
            &&& wired ==> joint.driven
            &&& wired ==> joint.kept <= i
            &&& !joint.driven ==> joint.kept == joint.first && !wired
        },
{
    match joint_of[i] {
        Some(k) => {
            let joint = joints[k as int];
            lemma_opening_rows(graph, compound_of, count);
            assert(graph.describes_joint(
                compound_of,
                graph.opening_rows(compound_of, count)[k as int],
                joint,
                count,
            ));
            assert(graph.same_joint(compound_of, joint.first as int, i));
            assert(graph.opens_joint(compound_of, joint.first as int));
            if i < joint.first {
                assert(graph.same_joint(compound_of, i, joint.first as int));
            }
            if graph.wired(graph.bearings.rows.keys@[i]) {
                assert(graph.row_wired(i));
                assert(graph.drives_joint(compound_of, joint.first as int, i));
                if i < joint.kept {
                    assert(!graph.drives_joint(compound_of, joint.first as int, i));
                }
            }
            if exists|r: int|
                0 <= r < count && #[trigger] graph.drives_joint(
                    compound_of,
                    joint.first as int,
                    r,
                ) {
                assert(graph.drives_joint(compound_of, joint.first as int, joint.kept as int));
            }
        },
        None => {},
    }
}

/// A drive is refused exactly when a weld locks its joint, and the first such
/// row is the one that is told.
pub proof fn the_first_locked_drive_is_told(
    graph: &ConstructionGraph,
    compound_of: Seq<u32>,
    count: int,
    i: int,
)
    requires
        0 <= i < count,
    ensures
        ({
            let locked = graph.side_a(compound_of, i) == graph.side_b(compound_of, i) && exists|
                l: int,
            |
                0 <= l < graph.drive_links.rows.values@.len() && (
                #[trigger] graph.drive_links.rows.values@[l]).bearing
                    == graph.bearings.rows.keys@[i];
            match graph.first_locked_drive(compound_of, count) {
                Some(told) => 0 <= told < count && (i < told ==> !locked) && (i == told ==> locked),
                None => !locked,
            }
        }),
    decreases count,
{
    if count > i + 1 {
        the_first_locked_drive_is_told(graph, compound_of, count - 1, i);
        match graph.first_locked_drive(compound_of, count - 1) {
            Some(told) => {},
            None => {},
        }
    } else {
        lemma_locked_below(graph, compound_of, count - 1);
    }
}

/// A locked drive that is told stands among the rows.
proof fn lemma_locked_below(graph: &ConstructionGraph, compound_of: Seq<u32>, count: int)
    requires
        0 <= count,
    ensures
        graph.first_locked_drive(compound_of, count) is Some ==> 0 <= graph.first_locked_drive(
            compound_of,
            count,
        )->0 < count,
    decreases count,
{
    if count > 0 {
        lemma_locked_below(graph, compound_of, count - 1);
    }
}

/// Opening rows ascend.
proof fn lemma_openings_ascend(graph: &ConstructionGraph, compound_of: Seq<u32>, count: int)
    requires
        0 <= count,
    ensures
        forall|k: int, l: int|
            #![trigger graph.opening_rows(compound_of, count)[k], graph.opening_rows(compound_of, count)[l]]
            0 <= k < l < graph.opening_rows(compound_of, count).len() ==> graph.opening_rows(
                compound_of,
                count,
            )[k] < graph.opening_rows(compound_of, count)[l],
    decreases count,
{
    if count > 0 {
        lemma_openings_ascend(graph, compound_of, count - 1);
        lemma_opening_rows(graph, compound_of, count - 1);
        let before = graph.opening_rows(compound_of, count - 1);
        let rows = graph.opening_rows(compound_of, count);
        assert forall|k: int, l: int| #![trigger rows[k], rows[l]] 0 <= k < l < rows.len() implies rows[k]
            < rows[l] by {
            assert(rows[k] == before[k]);
            if l < before.len() {
                assert(rows[l] == before[l]);
            }
        }
    }
}

/// Joints stand in the order of their first rows, and no two of them are one.
pub proof fn joints_stand_in_row_order(
    graph: &ConstructionGraph,
    compound_of: Seq<u32>,
    joints: Seq<PhysicalJoint>,
    joint_of: Seq<Option<usize>>,
    count: int,
    k: int,
    l: int,
)
    requires
        0 <= count,
        graph.collapsed(compound_of, joints, joint_of, count),
        0 <= k < l < joints.len(),
    ensures
        joints[k].first < joints[l].first,
        !graph.same_joint(compound_of, joints[k].first as int, joints[l].first as int),
{
    let rows = graph.opening_rows(compound_of, count);
    lemma_openings_ascend(graph, compound_of, count);
    lemma_opening_rows(graph, compound_of, count);
    assert(graph.describes_joint(compound_of, rows[k], joints[k], count));
    assert(graph.describes_joint(compound_of, rows[l], joints[l], count));
    assert(rows[k] < rows[l]);
    assert(graph.opens_joint(compound_of, rows[l]));
    assert(graph.opens_joint(compound_of, rows[k]));
}

} // verus!
