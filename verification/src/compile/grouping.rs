//! Rigid groups: parts and joint heads that welds and links hold together.

use vstd::prelude::*;

use super::disjoint_set::{
    links_within, merging_represents_one_more_link, represents, separate_rows_represent_no_links,
    DisjointSet, Link,
};
use crate::graph::ConstructionGraph;
use crate::ids::PartId;
use crate::ordered::OrderedSet;
use crate::parts::{BearingSpec, FaceOwner, RigidLinkSpec, WeldSpec};
use crate::scalar::Triple;

verus! {

/// The moving head of one mounted piece of hardware, by its supporting part and anchor.
#[derive(Clone, Copy, Debug, PartialEq, Eq, PartialOrd, Ord, Hash, Structural)]
pub struct HeadKey {
    pub support: PartId,
    pub anchor: Triple,
}

/// The head that a joint's hardware carries, or would carry.
pub open spec fn head_of(bearing: BearingSpec) -> HeadKey {
    HeadKey { support: bearing.source.owner->Part_0, anchor: bearing.shared_anchor }
}

impl ConstructionGraph {
    /// Connections name live rows, and joints hold parts.
    pub open spec fn references_live(&self) -> bool {
        &&& forall|i: int|
            #![trigger self.welds.rows.values@[i]]
            0 <= i < self.welds.rows.values@.len() ==> self.owner_live(
                self.welds.rows.values@[i].first.owner,
            ) && self.owner_live(self.welds.rows.values@[i].second.owner)
        &&& forall|i: int|
            #![trigger self.rigid_links.rows.values@[i]]
            0 <= i < self.rigid_links.rows.values@.len() ==> self.has_part(
                self.rigid_links.rows.values@[i].first,
            ) && self.has_part(self.rigid_links.rows.values@[i].second)
        &&& forall|i: int|
            #![trigger self.bearings.rows.values@[i]]
            0 <= i < self.bearings.rows.values@.len() ==> self.bearing_live(
                self.bearings.rows.values@[i],
            )
    }

    /// Whether a joint starts on a live part, and ends on one unless a head of its own is bare.
    pub open spec fn bearing_live(&self, bearing: BearingSpec) -> bool {
        &&& bearing.source.owner is Part
        &&& self.owner_live(bearing.source.owner)
        &&& match bearing.target {
            Some(face) => face.owner is Part && self.owner_live(face.owner),
            None => bearing.kind.owns_head,
        }
    }

    /// The dense row of a live part.
    pub open spec fn dense(&self, part: PartId) -> int {
        self.parts.rows.keys@.index_of(part)
    }

    /// The heads among the first `count` joints, in the order of their first joint.
    pub open spec fn heads(&self, count: int) -> Seq<HeadKey>
        decreases count,
    {
        if count <= 0 {
            Seq::empty()
        } else {
            let before = self.heads(count - 1);
            let bearing = self.bearings.rows.values@[count - 1];
            if bearing.kind.owns_head && !before.contains(head_of(bearing)) {
                before.push(head_of(bearing))
            } else {
                before
            }
        }
    }

    /// Every head.
    pub open spec fn all_heads(&self) -> Seq<HeadKey> {
        self.heads(self.bearings.rows.values@.len() as int)
    }

    /// Rows that can be welded together: parts, then heads.
    pub open spec fn node_count(&self) -> int {
        (self.parts.rows.keys@.len() + self.all_heads().len()) as int
    }

    /// What a joint holds together: a mounted head and the part attached to it.
    /// A joint without a head links a row to itself alone.
    pub open spec fn bearing_link(&self, i: int) -> Link {
        let bearing = self.bearings.rows.values@[i];
        let head = head_of(bearing);
        match bearing.target {
            Some(face) => if self.all_heads().contains(head) && face.owner is Part {
                (
                    self.parts.rows.keys@.len() + self.all_heads().index_of(head),
                    self.dense(face.owner->Part_0),
                )
            } else {
                (0, 0)
            },
            None => (0, 0),
        }
    }

    /// What a weld holds together; a weld to the ground links a row to itself alone.
    pub open spec fn weld_link(&self, i: int) -> Link {
        let weld = self.welds.rows.values@[i];
        match (weld.first.owner, weld.second.owner) {
            (FaceOwner::Part(a), FaceOwner::Part(b)) => (self.dense(a), self.dense(b)),
            _ => (0, 0),
        }
    }

    /// What a rigid link holds together.
    pub open spec fn rigid_link(&self, i: int) -> Link {
        let link = self.rigid_links.rows.values@[i];
        (self.dense(link.first), self.dense(link.second))
    }

    /// Everything that holds rows together rigidly.
    pub open spec fn group_links(&self) -> Seq<Link> {
        Seq::new(self.bearings.rows.values@.len(), |i: int| self.bearing_link(i)) + Seq::new(
            self.welds.rows.values@.len(),
            |i: int| self.weld_link(i),
        ) + Seq::new(self.rigid_links.rows.values@.len(), |i: int| self.rigid_link(i))
    }

    /// Whether a weld holds a face of `part` to the ground.
    pub open spec fn weld_grounds(&self, i: int, part: PartId) -> bool {
        let weld = self.welds.rows.values@[i];
        ||| weld.first.owner == FaceOwner::Part(part) && weld.second.owner is Ground
        ||| weld.first.owner is Ground && weld.second.owner == FaceOwner::Part(part)
    }

    /// Whether a part is held still: named from outside, or welded to the ground.
    pub open spec fn grounded(&self, static_parts: Seq<PartId>, part: PartId) -> bool {
        static_parts.contains(part) || exists|i: int|
            0 <= i < self.welds.rows.values@.len() && #[trigger] self.weld_grounds(i, part)
    }
}

/// A head's key.
pub fn head_key(bearing: &BearingSpec) -> (head: HeadKey)
    requires
        bearing.source.owner is Part,
    ensures
        head == head_of(*bearing),
{
    match bearing.source.owner {
        FaceOwner::Part(support) => HeadKey { support, anchor: bearing.shared_anchor },
        FaceOwner::Ground => HeadKey {
            support: PartId { index: 0, generation: 0 },
            anchor: bearing.shared_anchor,
        },
    }
}

/// Where a head stands in a list.
pub fn head_position(heads: &Vec<HeadKey>, head: HeadKey) -> (at: Option<usize>)
    ensures
        at is Some <==> heads@.contains(head),
        at is Some ==> at->0 < heads@.len() && heads@[at->0 as int] == head && forall|i: int|
            #![trigger heads@[i]]
            0 <= i < at->0 ==> heads@[i] != head,
{
    let mut i: usize = 0;
    while i < heads.len()
        invariant
            i <= heads@.len(),
            forall|k: int| #![trigger heads@[k]] 0 <= k < i ==> heads@[k] != head,
        decreases heads@.len() - i,
    {
        if heads[i] == head {
            assert(heads@[i as int] == head);
            return Some(i);
        }
        i += 1;
    }
    None
}

/// No head is listed twice, and every carried head is listed.
pub proof fn lemma_heads(graph: &ConstructionGraph, count: int)
    requires
        0 <= count <= graph.bearings.rows.values@.len(),
    ensures
        graph.heads(count).no_duplicates(),
        graph.heads(count).len() <= count,
        forall|i: int|
            #![trigger graph.bearings.rows.values@[i]]
            0 <= i < count && graph.bearings.rows.values@[i].kind.owns_head ==> graph.heads(
                count,
            ).contains(head_of(graph.bearings.rows.values@[i])),
    decreases count,
{
    if count > 0 {
        lemma_heads(graph, count - 1);
        let before = graph.heads(count - 1);
        let bearing = graph.bearings.rows.values@[count - 1];
        let heads = graph.heads(count);
        assert forall|i: int| #![trigger graph.bearings.rows.values@[i]]
            0 <= i < count && graph.bearings.rows.values@[i].kind.owns_head implies heads.contains(
            head_of(graph.bearings.rows.values@[i]),
        ) by {
            let head = head_of(graph.bearings.rows.values@[i]);
            if i < count - 1 {
                assert(before.contains(head));
            }
            if before.contains(head) {
                let k = before.index_of(head);
                assert(heads[k] == head);
            } else {
                assert(heads[heads.len() - 1] == head);
            }
        }
    }
}

/// A listed head stands at one position.
proof fn lemma_head_index(heads: Seq<HeadKey>, at: int)
    requires
        heads.no_duplicates(),
        0 <= at < heads.len(),
    ensures
        heads.index_of(heads[at]) == at,
{
    let i = heads.index_of(heads[at]);
    assert(heads.contains(heads[at]));
    assert(heads[i] == heads[at]);
}

impl ConstructionGraph {
    /// Lists the heads in the order of their first joint.
    pub fn list_heads(&self) -> (heads: Vec<HeadKey>)
        requires
            self.references_live(),
        ensures
            heads@ == self.all_heads(),
    {
        let mut heads: Vec<HeadKey> = Vec::new();
        let mut i: usize = 0;
        while i < self.bearings.rows.values.len()
            invariant
                self.references_live(),
                i <= self.bearings.rows.values@.len(),
                heads@ == self.heads(i as int),
            decreases self.bearings.rows.values@.len() - i,
        {
            let bearing: BearingSpec = self.bearings.rows.values[i];
            assert(self.bearing_live(self.bearings.rows.values@[i as int]));
            if bearing.kind.owns_head {
                let head: HeadKey = head_key(&bearing);
                if head_position(&heads, head).is_none() {
                    heads.push(head);
                }
            }
            i += 1;
        }
        heads
    }

    /// The dense row of a live part.
    pub(crate) fn dense_row(&self, part: PartId) -> (row: usize)
        requires
            self.wf(),
            self.has_part(part),
        ensures
            row == self.dense(part),
            row < self.parts.rows.keys@.len(),
    {
        match self.parts.rows.index_of(part) {
            Some(row) => row,
            None => 0,
        }
    }

    /// Every link joins known rows.
    proof fn lemma_links_within(&self)
        requires
            self.wf(),
            self.references_live(),
            self.parts.rows.keys@.len() > 0,
        ensures
            links_within(self.group_links(), self.node_count()),
    {
        let links = self.group_links();
        let bearings = self.bearings.rows.values@.len() as int;
        let welds = self.welds.rows.values@.len() as int;
        assert forall|k: int| #![trigger links[k]] 0 <= k < links.len() implies 0 <= links[k].0
            < self.node_count() && 0 <= links[k].1 < self.node_count() by {
            if k < bearings {
                assert(links[k] == self.bearing_link(k));
                assert(self.bearing_live(self.bearings.rows.values@[k]));
            } else if k < bearings + welds {
                assert(links[k] == self.weld_link(k - bearings));
                let weld = self.welds.rows.values@[k - bearings];
                assert(self.owner_live(weld.first.owner) && self.owner_live(weld.second.owner));
            } else {
                assert(links[k] == self.rigid_link(k - bearings - welds));
                let link = self.rigid_links.rows.values@[k - bearings - welds];
                assert(self.has_part(link.first) && self.has_part(link.second));
            }
        }
    }

    /// Joins everything that holds rows together rigidly.
    pub(crate) fn join_rows(&self, heads: &Vec<HeadKey>) -> (sets: DisjointSet)
        requires
            self.wf(),
            self.references_live(),
            self.parts.rows.keys@.len() > 0,
            heads@ == self.all_heads(),
            self.node_count() <= usize::MAX,
        ensures
            sets.wf(),
            sets@.len() == self.node_count(),
            represents(sets@, self.group_links()),
    {
        let count: usize = self.parts.rows.keys.len();
        let ghost links = self.group_links();
        let ghost bearings = self.bearings.rows.values@.len() as int;
        let ghost welds = self.welds.rows.values@.len() as int;
        let mut sets = DisjointSet::new(count + heads.len());
        proof {
            separate_rows_represent_no_links((count + heads@.len()) as nat);
            assert(links.take(0) =~= Seq::<Link>::empty());
            self.lemma_links_within();
            lemma_heads(self, bearings);
        }
        let mut i: usize = 0;
        while i < self.bearings.rows.values.len()
            invariant
                self.wf(),
                self.references_live(),
                links == self.group_links(),
                links_within(links, self.node_count()),
                bearings == self.bearings.rows.values@.len(),
                heads@ == self.all_heads(),
                heads@.no_duplicates(),
                count == self.parts.rows.keys@.len(),
                count > 0,
                count + heads@.len() <= usize::MAX,
                i <= bearings,
                sets.wf(),
                sets@.len() == self.node_count(),
                represents(sets@, links.take(i as int)),
            decreases self.bearings.rows.values@.len() - i,
        {
            let bearing: BearingSpec = self.bearings.rows.values[i];
            let mut a: usize = 0;
            let mut b: usize = 0;
            proof {
                assert(self.bearing_live(self.bearings.rows.values@[i as int]));
                assert(links[i as int] == self.bearing_link(i as int));
            }
            if let Some(face) = bearing.target {
                if let FaceOwner::Part(target) = face.owner {
                    if let Some(at) = head_position(heads, head_key(&bearing)) {
                        proof {
                            lemma_head_index(heads@, at as int);
                        }
                        a = count + at;
                        b = self.dense_row(target);
                    }
                }
            }
            proof {
                assert(links[i as int] == (a as int, b as int));
                merging_represents_one_more_link(
                    sets@,
                    links.take(i as int),
                    a as int,
                    b as int,
                );
                assert(links.take(i as int).push(links[i as int]) =~= links.take(i + 1));
            }
            sets.union(a, b);
            i += 1;
        }
        let mut j: usize = 0;
        while j < self.welds.rows.values.len()
            invariant
                self.wf(),
                self.references_live(),
                links == self.group_links(),
                bearings == self.bearings.rows.values@.len(),
                welds == self.welds.rows.values@.len(),
                count == self.parts.rows.keys@.len(),
                count > 0,
                j <= welds,
                sets.wf(),
                sets@.len() == self.node_count(),
                represents(sets@, links.take(bearings + j)),
            decreases self.welds.rows.values@.len() - j,
        {
            let weld: WeldSpec = self.welds.rows.values[j];
            let mut a: usize = 0;
            let mut b: usize = 0;
            proof {
                assert(self.owner_live(self.welds.rows.values@[j as int].first.owner));
                assert(links[bearings + j] == self.weld_link(j as int));
            }
            if let FaceOwner::Part(first) = weld.first.owner {
                if let FaceOwner::Part(second) = weld.second.owner {
                    a = self.dense_row(first);
                    b = self.dense_row(second);
                }
            }
            proof {
                assert(links[bearings + j] == (a as int, b as int));
                merging_represents_one_more_link(
                    sets@,
                    links.take(bearings + j),
                    a as int,
                    b as int,
                );
                assert(links.take(bearings + j).push(links[bearings + j]) =~= links.take(
                    bearings + j + 1,
                ));
            }
            sets.union(a, b);
            j += 1;
        }
        let mut k: usize = 0;
        while k < self.rigid_links.rows.values.len()
            invariant
                self.wf(),
                self.references_live(),
                links == self.group_links(),
                bearings == self.bearings.rows.values@.len(),
                welds == self.welds.rows.values@.len(),
                count == self.parts.rows.keys@.len(),
                k <= self.rigid_links.rows.values@.len(),
                sets.wf(),
                sets@.len() == self.node_count(),
                represents(sets@, links.take(bearings + welds + k)),
            decreases self.rigid_links.rows.values@.len() - k,
        {
            let link: RigidLinkSpec = self.rigid_links.rows.values[k];
            proof {
                assert(self.has_part(self.rigid_links.rows.values@[k as int].first));
                assert(links[bearings + welds + k] == self.rigid_link(k as int));
            }
            let a: usize = self.dense_row(link.first);
            let b: usize = self.dense_row(link.second);
            proof {
                merging_represents_one_more_link(
                    sets@,
                    links.take(bearings + welds + k),
                    a as int,
                    b as int,
                );
                assert(links.take(bearings + welds + k).push(links[bearings + welds + k])
                    =~= links.take(bearings + welds + k + 1));
            }
            sets.union(a, b);
            k += 1;
        }
        assert(links.take(links.len() as int) =~= links);
        sets
    }

    /// Marks the parts that are held still.
    pub(crate) fn mark_grounded(&self, static_parts: &OrderedSet<PartId>) -> (marks: Vec<bool>)
        requires
            self.wf(),
            self.references_live(),
            static_parts.wf(),
        ensures
            marks@.len() == self.parts.rows.keys@.len(),
            forall|i: int|
                #![trigger marks@[i]]
                0 <= i < marks@.len() ==> marks@[i] == self.grounded(
                    static_parts@,
                    self.parts.rows.keys@[i],
                ),
    {
        let mut marks: Vec<bool> = Vec::new();
        let mut i: usize = 0;
        while i < self.parts.rows.keys.len()
            invariant
                self.wf(),
                static_parts.wf(),
                i <= self.parts.rows.keys@.len(),
                marks@.len() == i,
                forall|k: int|
                    #![trigger marks@[k]]
                    0 <= k < i ==> marks@[k] == self.grounded(
                        static_parts@,
                        self.parts.rows.keys@[k],
                    ),
            decreases self.parts.rows.keys@.len() - i,
        {
            let part: PartId = self.parts.rows.keys[i];
            let mark: bool = static_parts.contains(part) || self.is_welded_down(part);
            marks.push(mark);
            i += 1;
        }
        marks
    }

    /// Whether a weld holds a part to the ground.
    fn is_welded_down(&self, part: PartId) -> (down: bool)
        ensures
            down <==> exists|i: int|
                0 <= i < self.welds.rows.values@.len() && #[trigger] self.weld_grounds(i, part),
    {
        let mut i: usize = 0;
        while i < self.welds.rows.values.len()
            invariant
                i <= self.welds.rows.values@.len(),
                forall|k: int| 0 <= k < i ==> !#[trigger] self.weld_grounds(k, part),
            decreases self.welds.rows.values@.len() - i,
        {
            let weld: WeldSpec = self.welds.rows.values[i];
            let down: bool = match (weld.first.owner, weld.second.owner) {
                (FaceOwner::Part(other), FaceOwner::Ground) => other == part,
                (FaceOwner::Ground, FaceOwner::Part(other)) => other == part,
                _ => false,
            };
            assert(down == self.weld_grounds(i as int, part));
            if down {
                return true;
            }
            i += 1;
        }
        false
    }
}

} // verus!
