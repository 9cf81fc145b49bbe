//! Compound bodies: what each rigid group holds.

use vstd::prelude::*;

use super::classes::Classes;
use super::disjoint_set::{closed_under, connected, represents, Link};
use super::grouping::{head_of, lemma_heads, HeadKey};
use super::model::TopologyError;
use crate::graph::ConstructionGraph;
use crate::ids::{handle_rank, lemma_handle_rank, PartId, RegionId};
use crate::ordered::{OrderedSet, Ranked};
use crate::scalar::Triple;
use crate::parts::FaceOwner;

verus! {

/// The position of an anchor: by first coordinate, then by second, then by third.
pub open spec fn anchor_rank(anchor: Triple) -> int {
    handle_rank(anchor.x.bits, anchor.y.bits) * 0x1_0000_0000 + anchor.z.bits
}

impl Ranked for HeadKey {
    open spec fn rank(self) -> int {
        self.support.rank() * 0x1_0000_0000_0000_0000_0000_0000 + anchor_rank(self.anchor)
    }

    proof fn rank_identifies(a: Self, b: Self) {
        lemma_handle_rank(
            a.anchor.x.bits,
            a.anchor.y.bits,
            b.anchor.x.bits,
            b.anchor.y.bits,
        );
        PartId::rank_identifies(a.support, b.support);
    }

    fn precedes(self, other: Self) -> (before: bool) {
        proof {
            lemma_handle_rank(
                self.anchor.x.bits,
                self.anchor.y.bits,
                other.anchor.x.bits,
                other.anchor.y.bits,
            );
            if self.support.rank() == other.support.rank() {
                PartId::rank_identifies(self.support, other.support);
            }
        }
        if self.support != other.support {
            self.support.precedes(other.support)
        } else if self.anchor.x.bits != other.anchor.x.bits {
            self.anchor.x.bits < other.anchor.x.bits
        } else if self.anchor.y.bits != other.anchor.y.bits {
            self.anchor.y.bits < other.anchor.y.bits
        } else {
            self.anchor.z.bits < other.anchor.z.bits
        }
    }
}

/// One compound body produced by collapsing a rigid group.
#[derive(Debug)]
pub struct CompiledCompound {
    /// Source parts in row order.
    pub source_parts: Vec<PartId>,
    /// Hardware heads that are one body with the parts, in key order.
    pub heads: OrderedSet<HeadKey>,
    /// Regions that own a source part, each once, in the order of their first part.
    pub regions: Vec<RegionId>,
    /// Whether a source part is held still.
    pub is_static: bool,
}

/// The rigid groups of a construction.
#[derive(Debug)]
pub struct CompoundPlan {
    /// Hardware heads in the order of their first joint.
    pub heads: Vec<HeadKey>,
    /// The compound of every part row, then of every head.
    pub compound_of: Vec<u32>,
    /// Compounds in the order of their first row.
    pub compounds: Vec<CompiledCompound>,
}

/// The first `count` parts that stand in compound `c`.
pub open spec fn parts_in(keys: Seq<PartId>, compound_of: Seq<u32>, c: int, count: int) -> Seq<
    PartId,
>
    decreases count,
{
    if count <= 0 {
        Seq::empty()
    } else if compound_of[count - 1] == c {
        parts_in(keys, compound_of, c, count - 1).push(keys[count - 1])
    } else {
        parts_in(keys, compound_of, c, count - 1)
    }
}

/// Whether no earlier row stands in row `i`'s compound.
pub open spec fn opens_compound(compound_of: Seq<u32>, i: int) -> bool {
    forall|k: int| #![trigger compound_of[k]] 0 <= k < i ==> compound_of[k] != compound_of[i]
}

/// Whether `head` is among the first `count` heads of compound `c`.
pub open spec fn head_in(
    heads: Seq<HeadKey>,
    compound_of: Seq<u32>,
    offset: int,
    c: int,
    count: int,
    head: HeadKey,
) -> bool {
    exists|k: int|
        0 <= k < count && #[trigger] heads[k] == head && compound_of[offset + k] == c
}

impl ConstructionGraph {
    /// The regions that own the first `count` parts of compound `c`, each once.
    pub open spec fn regions_in(&self, compound_of: Seq<u32>, c: int, count: int) -> Seq<RegionId>
        decreases count,
    {
        if count <= 0 {
            Seq::empty()
        } else {
            let before = self.regions_in(compound_of, c, count - 1);
            let region = self.region_owning(self.parts.rows.keys@[count - 1]);
            if compound_of[count - 1] == c && region is Some && !before.contains(region->0) {
                before.push(region->0)
            } else {
                before
            }
        }
    }

    /// Whether one of the first `count` parts holds compound `c` still.
    pub open spec fn anchors_compound(
        &self,
        static_parts: Seq<PartId>,
        compound_of: Seq<u32>,
        c: int,
        count: int,
    ) -> bool {
        exists|i: int|
            0 <= i < count && #[trigger] compound_of[i] == c && self.grounded(
                static_parts,
                self.parts.rows.keys@[i],
            )
    }

    /// Whether rows share a compound exactly when rigid links join them, and
    /// compounds stand in the order of their first row.
    pub open spec fn groups_rows(&self, compound_of: Seq<u32>, count: int) -> bool {
        &&& compound_of.len() == self.node_count()
        &&& forall|i: int|
            #![trigger compound_of[i]]
            0 <= i < compound_of.len() ==> compound_of[i] < count
        &&& forall|i: int, j: int|
            #![trigger compound_of[i], compound_of[j]]
            0 <= i < compound_of.len() && 0 <= j < compound_of.len() ==> (compound_of[i]
                == compound_of[j] <==> connected(self.group_links(), i, j))
        &&& forall|i: int, j: int|
            #![trigger opens_compound(compound_of, i), opens_compound(compound_of, j)]
            0 <= i < j < compound_of.len() && opens_compound(compound_of, i) && opens_compound(
                compound_of,
                j,
            ) ==> compound_of[i] < compound_of[j]
        &&& forall|c: int| 0 <= c < count ==> #[trigger] inhabited(compound_of, c)
    }

    /// Whether a compound lists what stands in row `c`.
    pub open spec fn fills_compound(
        &self,
        static_parts: Seq<PartId>,
        compound_of: Seq<u32>,
        c: int,
        compound: CompiledCompound,
    ) -> bool {
        let count = self.parts.rows.keys@.len() as int;
        &&& compound.source_parts@ == parts_in(self.parts.rows.keys@, compound_of, c, count)
        &&& compound.heads.wf()
        &&& forall|head: HeadKey| #[trigger]
            compound.heads.holds(head) <==> head_in(
                self.all_heads(),
                compound_of,
                count,
                c,
                self.all_heads().len() as int,
                head,
            )
        &&& compound.regions@ == self.regions_in(compound_of, c, count)
        &&& compound.is_static == self.anchors_compound(static_parts, compound_of, c, count)
    }

    /// Whether a plan is the construction's rigid groups.
    pub open spec fn planned(&self, static_parts: Seq<PartId>, plan: CompoundPlan) -> bool {
        &&& plan.heads@ == self.all_heads()
        &&& self.groups_rows(plan.compound_of@, plan.compounds@.len() as int)
        &&& forall|c: int|
            #![trigger plan.compounds@[c]]
            0 <= c < plan.compounds@.len() ==> self.fills_compound(
                static_parts,
                plan.compound_of@,
                c,
                plan.compounds@[c],
            )
    }
}

/// Whether some row stands in compound `c`.
pub open spec fn inhabited(compound_of: Seq<u32>, c: int) -> bool {
    exists|i: int| 0 <= i < compound_of.len() && #[trigger] compound_of[i] == c
}

/// Classes of linked rows give compounds in order.
proof fn lemma_groups_rows(
    graph: &ConstructionGraph,
    classes: Classes,
    labels: Seq<int>,
    compound_of: Seq<u32>,
)
    requires
        represents(labels, graph.group_links()),
        labels.len() == graph.node_count(),
        labels.len() <= u32::MAX,
        classes.lists(labels),
        compound_of.len() == labels.len(),
        forall|i: int|
            #![trigger compound_of[i]]
            0 <= i < labels.len() ==> compound_of[i] == classes.group_of@[i],
    ensures
        graph.groups_rows(compound_of, classes.groups@.len() as int),
{
    assert forall|i: int| #![trigger compound_of[i]] 0 <= i < compound_of.len() implies compound_of[i]
        < classes.groups@.len() by {
        assert(classes.group_of@[i] < classes.groups@.len());
    }
    assert forall|i: int, j: int| #![trigger compound_of[i], compound_of[j]]
        0 <= i < compound_of.len() && 0 <= j < compound_of.len() implies (compound_of[i]
        == compound_of[j] <==> connected(graph.group_links(), i, j)) by {
        classes.lemma_same_group(labels, i, j);
        assert(labels[i] == labels[j] <==> connected(graph.group_links(), i, j));
    }
    assert forall|c: int| 0 <= c < classes.groups@.len() implies #[trigger] inhabited(
        compound_of,
        c,
    ) by {
        let first = classes.groups@[c]@[0] as int;
        assert(classes.group_of@[first] == c);
        assert(compound_of[first] == c);
    }
    assert forall|i: int, j: int|
        #![trigger opens_compound(compound_of, i), opens_compound(compound_of, j)]
        0 <= i < j < compound_of.len() && opens_compound(compound_of, i) && opens_compound(
            compound_of,
            j,
        ) implies compound_of[i] < compound_of[j] by {
        let gi = compound_of[i] as int;
        let gj = compound_of[j] as int;
        lemma_first_of_group(classes, labels, compound_of, i);
        lemma_first_of_group(classes, labels, compound_of, j);
        if gj < gi {
            assert(classes.groups@[gj]@[0] < classes.groups@[gi]@[0]);
        }
    }
}

/// The row that opens a compound is the least of its class.
proof fn lemma_first_of_group(
    classes: Classes,
    labels: Seq<int>,
    compound_of: Seq<u32>,
    i: int,
)
    requires
        classes.lists(labels),
        labels.len() <= u32::MAX,
        compound_of.len() == labels.len(),
        forall|i: int|
            #![trigger compound_of[i]]
            0 <= i < labels.len() ==> compound_of[i] == classes.group_of@[i],
        0 <= i < labels.len(),
        opens_compound(compound_of, i),
    ensures
        compound_of[i] < classes.groups@.len(),
        classes.groups@[compound_of[i] as int]@[0] == i,
{
    let g = classes.group_of@[i] as int;
    assert(compound_of[i] == g);
    let k = classes.groups@[g]@.index_of(i as usize);
    assert(classes.groups@[g]@[k] == i);
    let first = classes.groups@[g]@[0] as int;
    assert(classes.group_of@[first] == g);
    assert(compound_of[first] == g);
    if k > 0 {
        assert(classes.groups@[g]@[0] < classes.groups@[g]@[k]);
        assert(compound_of[first] != compound_of[i]);
    }
}

/// Empty buckets, one for each compound.
fn empty_lists<T>(count: usize) -> (lists: Vec<Vec<T>>)
    ensures
        lists@.len() == count,
        forall|c: int| #![trigger lists@[c]] 0 <= c < count ==> lists@[c]@ == Seq::<T>::empty(),
{
    let mut lists: Vec<Vec<T>> = Vec::new();
    let mut c: usize = 0;
    while c < count
        invariant
            c <= count,
            lists@.len() == c,
            forall|d: int| #![trigger lists@[d]] 0 <= d < c ==> lists@[d]@ == Seq::<T>::empty(),
        decreases count - c,
    {
        lists.push(Vec::new());
        c += 1;
    }
    lists
}

/// Whether a list holds a region.
fn lists_region(regions: &Vec<RegionId>, region: RegionId) -> (held: bool)
    ensures
        held == regions@.contains(region),
{
    let mut i: usize = 0;
    while i < regions.len()
        invariant
            i <= regions@.len(),
            forall|k: int| #![trigger regions@[k]] 0 <= k < i ==> regions@[k] != region,
        decreases regions@.len() - i,
    {
        if regions[i] == region {
            assert(regions@[i as int] == region);
            return true;
        }
        i += 1;
    }
    false
}

impl ConstructionGraph {
    /// Sorts parts into their compounds.
    fn list_parts(&self, compound_of: &Vec<u32>, count: usize) -> (lists: Vec<Vec<PartId>>)
        requires
            self.wf(),
            compound_of@.len() >= self.parts.rows.keys@.len(),
            forall|i: int|
                #![trigger compound_of@[i]]
                0 <= i < compound_of@.len() ==> compound_of@[i] < count,
        ensures
            lists@.len() == count,
            forall|c: int|
                #![trigger lists@[c]]
                0 <= c < count ==> lists@[c]@ == parts_in(
                    self.parts.rows.keys@,
                    compound_of@,
                    c,
                    self.parts.rows.keys@.len() as int,
                ),
    {
        let mut lists: Vec<Vec<PartId>> = empty_lists(count);
        let mut i: usize = 0;
        while i < self.parts.rows.keys.len()
            invariant
                self.wf(),
                i <= self.parts.rows.keys@.len() <= compound_of@.len(),
                lists@.len() == count,
                forall|i: int|
                    #![trigger compound_of@[i]]
                    0 <= i < compound_of@.len() ==> compound_of@[i] < count,
                forall|c: int|
                    #![trigger lists@[c]]
                    0 <= c < count ==> lists@[c]@ == parts_in(
                        self.parts.rows.keys@,
                        compound_of@,
                        c,
                        i as int,
                    ),
            decreases self.parts.rows.keys@.len() - i,
        {
            let ghost before = lists@;
            let c: usize = compound_of[i] as usize;
            lists[c].push(self.parts.rows.keys[i]);
            proof {
                assert forall|d: int| #![trigger lists@[d]] 0 <= d < count implies lists@[d]@
                    == parts_in(self.parts.rows.keys@, compound_of@, d, i + 1) by {
                    assert(before[d]@ == parts_in(
                        self.parts.rows.keys@,
                        compound_of@,
                        d,
                        i as int,
                    ));
                }
            }
            i += 1;
        }
        lists
    }

    /// Sorts regions into the compounds of their parts.
    fn list_regions(&self, compound_of: &Vec<u32>, count: usize) -> (lists: Vec<Vec<RegionId>>)
        requires
            self.wf(),
            compound_of@.len() >= self.parts.rows.keys@.len(),
            forall|i: int|
                #![trigger compound_of@[i]]
                0 <= i < compound_of@.len() ==> compound_of@[i] < count,
        ensures
            lists@.len() == count,
            forall|c: int|
                #![trigger lists@[c]]
                0 <= c < count ==> lists@[c]@ == self.regions_in(
                    compound_of@,
                    c,
                    self.parts.rows.keys@.len() as int,
                ),
    {
        let mut lists: Vec<Vec<RegionId>> = empty_lists(count);
        let mut i: usize = 0;
        while i < self.parts.rows.keys.len()
            invariant
                self.wf(),
                i <= self.parts.rows.keys@.len() <= compound_of@.len(),
                lists@.len() == count,
                forall|i: int|
                    #![trigger compound_of@[i]]
                    0 <= i < compound_of@.len() ==> compound_of@[i] < count,
                forall|c: int|
                    #![trigger lists@[c]]
                    0 <= c < count ==> lists@[c]@ == self.regions_in(compound_of@, c, i as int),
            decreases self.parts.rows.keys@.len() - i,
        {
            let ghost before = lists@;
            let c: usize = compound_of[i] as usize;
            if let Some(region) = self.region_of(self.parts.rows.keys[i]) {
                if !lists_region(&lists[c], region) {
                    lists[c].push(region);
                }
            }
            proof {
                assert forall|d: int| #![trigger lists@[d]] 0 <= d < count implies lists@[d]@
                    == self.regions_in(compound_of@, d, i + 1) by {
                    assert(before[d]@ == self.regions_in(compound_of@, d, i as int));
                }
            }
            i += 1;
        }
        lists
    }

    /// Sorts heads into their compounds.
    fn list_compound_heads(&self, heads: &Vec<HeadKey>, compound_of: &Vec<u32>, count: usize) -> (
        sets: Vec<OrderedSet<HeadKey>>)
        requires
            compound_of@.len() == self.parts.rows.keys@.len() + heads@.len(),
            forall|i: int|
                #![trigger compound_of@[i]]
                0 <= i < compound_of@.len() ==> compound_of@[i] < count,
        ensures
            sets@.len() == count,
            forall|c: int| #![trigger sets@[c]] 0 <= c < count ==> sets@[c].wf(),
            forall|c: int, head: HeadKey|
                #![trigger sets@[c].holds(head)]
                0 <= c < count ==> (sets@[c].holds(head) <==> head_in(
                    heads@,
                    compound_of@,
                    self.parts.rows.keys@.len() as int,
                    c,
                    heads@.len() as int,
                    head,
                )),
    {
        let offset: usize = self.parts.rows.keys.len();
        let rows: usize = compound_of.len();
        let mut sets: Vec<OrderedSet<HeadKey>> = Vec::new();
        let mut c: usize = 0;
        while c < count
            invariant
                c <= count,
                sets@.len() == c,
                forall|d: int|
                    #![trigger sets@[d]]
                    0 <= d < c ==> sets@[d].wf() && sets@[d]@ == Seq::<HeadKey>::empty(),
            decreases count - c,
        {
            sets.push(OrderedSet::new());
            c += 1;
        }
        let mut k: usize = 0;
        while k < heads.len()
            invariant
                offset == self.parts.rows.keys@.len(),
                compound_of@.len() == offset + heads@.len(),
                compound_of@.len() == rows,
                k <= heads@.len(),
                sets@.len() == count,
                forall|i: int|
                    #![trigger compound_of@[i]]
                    0 <= i < compound_of@.len() ==> compound_of@[i] < count,
                forall|c: int| #![trigger sets@[c]] 0 <= c < count ==> sets@[c].wf(),
                forall|c: int, head: HeadKey|
                    #![trigger sets@[c].holds(head)]
                    0 <= c < count ==> (sets@[c].holds(head) <==> head_in(
                        heads@,
                        compound_of@,
                        offset as int,
                        c,
                        k as int,
                        head,
                    )),
            decreases heads@.len() - k,
        {
            let ghost before = sets@;
            let c: usize = compound_of[offset + k] as usize;
            sets[c].insert(heads[k]);
            proof {
                assert forall|d: int, head: HeadKey| #![trigger sets@[d].holds(head)]
                    0 <= d < count implies (sets@[d].holds(head) <==> head_in(
                    heads@,
                    compound_of@,
                    offset as int,
                    d,
                    k + 1,
                    head,
                )) by {
                    let was = before[d].holds(head);
                    assert(was <==> head_in(
                        heads@,
                        compound_of@,
                        offset as int,
                        d,
                        k as int,
                        head,
                    ));
                    if d == c && head == heads@[k as int] {
                        assert(heads@[k as int] == head && compound_of@[offset + k] == d);
                        assert(sets@[d].holds(head));
                    } else {
                        assert(sets@[d].holds(head) == was);
                        if head_in(heads@, compound_of@, offset as int, d, k + 1, head) {
                            let j = choose|j: int|
                                0 <= j < k + 1 && #[trigger] heads@[j] == head
                                    && compound_of@[offset + j] == d;
                            assert(j < k);
                        }
                        if was {
                            let j = choose|j: int|
                                0 <= j < k && #[trigger] heads@[j] == head
                                    && compound_of@[offset + j] == d;
                            assert(heads@[j] == head);
                        }
                    }
                }
            }
            k += 1;
        }
        sets
    }

    /// Marks the compounds that a part holds still.
    fn mark_static(&self, static_parts: &OrderedSet<PartId>, compound_of: &Vec<u32>, count: usize) -> (
        marks: Vec<bool>)
        requires
            self.wf(),
            self.references_live(),
            static_parts.wf(),
            compound_of@.len() >= self.parts.rows.keys@.len(),
            forall|i: int|
                #![trigger compound_of@[i]]
                0 <= i < compound_of@.len() ==> compound_of@[i] < count,
        ensures
            marks@.len() == count,
            forall|c: int|
                #![trigger marks@[c]]
                0 <= c < count ==> marks@[c] == self.anchors_compound(
                    static_parts@,
                    compound_of@,
                    c,
                    self.parts.rows.keys@.len() as int,
                ),
    {
        let grounded: Vec<bool> = self.mark_grounded(static_parts);
        let mut marks: Vec<bool> = Vec::new();
        let mut c: usize = 0;
        while c < count
            invariant
                c <= count,
                marks@.len() == c,
                forall|d: int| #![trigger marks@[d]] 0 <= d < c ==> !marks@[d],
            decreases count - c,
        {
            marks.push(false);
            c += 1;
        }
        let mut i: usize = 0;
        while i < self.parts.rows.keys.len()
            invariant
                i <= self.parts.rows.keys@.len() <= compound_of@.len(),
                grounded@.len() == self.parts.rows.keys@.len(),
                forall|k: int|
                    #![trigger grounded@[k]]
                    0 <= k < grounded@.len() ==> grounded@[k] == self.grounded(
                        static_parts@,
                        self.parts.rows.keys@[k],
                    ),
                marks@.len() == count,
                forall|i: int|
                    #![trigger compound_of@[i]]
                    0 <= i < compound_of@.len() ==> compound_of@[i] < count,
                forall|c: int|
                    #![trigger marks@[c]]
                    0 <= c < count ==> marks@[c] == self.anchors_compound(
                        static_parts@,
                        compound_of@,
                        c,
                        i as int,
                    ),
            decreases self.parts.rows.keys@.len() - i,
        {
            let ghost before = marks@;
            let c: usize = compound_of[i] as usize;
            if grounded[i] {
                marks.set(c, true);
            }
            proof {
                let keys = self.parts.rows.keys@;
                assert forall|d: int| #![trigger marks@[d]] 0 <= d < count implies marks@[d]
                    == self.anchors_compound(static_parts@, compound_of@, d, i + 1) by {
                    assert(before[d] == self.anchors_compound(
                        static_parts@,
                        compound_of@,
                        d,
                        i as int,
                    ));
                    assert(grounded@[i as int] == self.grounded(static_parts@, keys[i as int]));
                    if before[d] {
                        let k = choose|k: int|
                            0 <= k < i && #[trigger] compound_of@[k] == d && self.grounded(
                                static_parts@,
                                keys[k],
                            );
                        assert(compound_of@[k] == d);
                    }
                    assert(compound_of@[i as int] == c);
                }
            }
            i += 1;
        }
        marks
    }

    /// Collapses rigid groups into compounds.
    pub fn plan_compounds(&self, static_parts: &OrderedSet<PartId>) -> (plan: Result<
        CompoundPlan,
        TopologyError,
    >)
        requires
            self.wf(),
            self.references_live(),
            static_parts.wf(),
            self.node_count() <= u32::MAX,
        ensures
            plan is Err <==> self.parts.rows.keys@.len() == 0,
            plan is Err ==> plan->Err_0 == TopologyError::EmptyConstruction,
            plan is Ok ==> self.planned(static_parts@, plan->Ok_0),
    {
        if self.parts.rows.keys.len() == 0 {
            return Err(TopologyError::EmptyConstruction);
        }
        let heads: Vec<HeadKey> = self.list_heads();
        let sets = self.join_rows(&heads);
        let nodes: usize = self.parts.rows.keys.len() + heads.len();
        let classes: Classes = Classes::of(&sets, nodes);
        let count: usize = classes.groups.len();
        let mut compound_of: Vec<u32> = Vec::new();
        let mut i: usize = 0;
        while i < nodes
            invariant
                i <= nodes,
                nodes <= u32::MAX,
                count <= nodes,
                classes.lists(sets@),
                sets@.len() == nodes,
                count == classes.groups@.len(),
                compound_of@.len() == i,
                forall|k: int|
                    #![trigger compound_of@[k]]
                    0 <= k < i ==> compound_of@[k] == classes.group_of@[k],
            decreases nodes - i,
        {
            assert(classes.group_of@[i as int] < count);
            compound_of.push(classes.group_of[i] as u32);
            i += 1;
        }
        proof {
            lemma_groups_rows(self, classes, sets@, compound_of@);
        }
        let mut parts: Vec<Vec<PartId>> = self.list_parts(&compound_of, count);
        let mut regions: Vec<Vec<RegionId>> = self.list_regions(&compound_of, count);
        let mut head_sets: Vec<OrderedSet<HeadKey>> = self.list_compound_heads(
            &heads,
            &compound_of,
            count,
        );
        let marks: Vec<bool> = self.mark_static(static_parts, &compound_of, count);
        let mut reversed: Vec<CompiledCompound> = Vec::new();
        let mut c: usize = count;
        while c > 0
            invariant
                c <= count,
                self.wf(),
                heads@ == self.all_heads(),
                compound_of@.len() == self.node_count(),
                parts@.len() == c,
                regions@.len() == c,
                head_sets@.len() == c,
                marks@.len() == count,
                reversed@.len() == count - c,
                forall|d: int|
                    #![trigger parts@[d]]
                    0 <= d < c ==> parts@[d]@ == parts_in(
                        self.parts.rows.keys@,
                        compound_of@,
                        d,
                        self.parts.rows.keys@.len() as int,
                    ),
                forall|d: int|
                    #![trigger regions@[d]]
                    0 <= d < c ==> regions@[d]@ == self.regions_in(
                        compound_of@,
                        d,
                        self.parts.rows.keys@.len() as int,
                    ),
                forall|d: int| #![trigger head_sets@[d]] 0 <= d < c ==> head_sets@[d].wf(),
                forall|d: int, head: HeadKey|
                    #![trigger head_sets@[d].holds(head)]
                    0 <= d < c ==> (head_sets@[d].holds(head) <==> head_in(
                        heads@,
                        compound_of@,
                        self.parts.rows.keys@.len() as int,
                        d,
                        heads@.len() as int,
                        head,
                    )),
                forall|d: int|
                    #![trigger marks@[d]]
                    0 <= d < count ==> marks@[d] == self.anchors_compound(
                        static_parts@,
                        compound_of@,
                        d,
                        self.parts.rows.keys@.len() as int,
                    ),
                forall|k: int|
                    #![trigger reversed@[k]]
                    0 <= k < reversed@.len() ==> self.fills_compound(
                        static_parts@,
                        compound_of@,
                        count - 1 - k,
                        reversed@[k],
                    ),
            decreases c,
        {
            c -= 1;
            let ghost set_before = head_sets@;
            let ghost parts_before = parts@;
            let ghost regions_before = regions@;
            match (parts.pop(), regions.pop(), head_sets.pop()) {
                (Some(source_parts), Some(regions), Some(heads)) => {
                    let compound = CompiledCompound {
                        source_parts,
                        heads,
                        regions,
                        is_static: marks[c],
                    };
                    proof {
                        assert(parts_before[c as int] == source_parts);
                        assert(regions_before[c as int] == regions);
                        assert(set_before[c as int] == heads);
                        assert(self.fills_compound(
                            static_parts@,
                            compound_of@,
                            c as int,
                            compound,
                        )) by {
                            assert forall|head: HeadKey| #[trigger]
                                compound.heads.holds(head) implies head_in(
                                self.all_heads(),
                                compound_of@,
                                self.parts.rows.keys@.len() as int,
                                c as int,
                                self.all_heads().len() as int,
                                head,
                            ) by {
                                assert(set_before[c as int].holds(head));
                            }
                            assert forall|head: HeadKey| #[trigger] head_in(
                                self.all_heads(),
                                compound_of@,
                                self.parts.rows.keys@.len() as int,
                                c as int,
                                self.all_heads().len() as int,
                                head,
                            ) implies compound.heads.holds(head) by {
                                assert(set_before[c as int].holds(head) == compound.heads.holds(
                                    head,
                                ));
                            }
                        }
                    }
                    reversed.push(compound);
                },
                _ => {
                    assert(false);
                },
            }
        }
        let mut compounds: Vec<CompiledCompound> = Vec::new();
        while reversed.len() > 0
            invariant
                compounds@.len() + reversed@.len() == count,
                forall|d: int|
                    #![trigger compounds@[d]]
                    0 <= d < compounds@.len() ==> self.fills_compound(
                        static_parts@,
                        compound_of@,
                        d,
                        compounds@[d],
                    ),
                forall|k: int|
                    #![trigger reversed@[k]]
                    0 <= k < reversed@.len() ==> self.fills_compound(
                        static_parts@,
                        compound_of@,
                        count - 1 - k,
                        reversed@[k],
                    ),
            decreases reversed@.len(),
        {
            if let Some(compound) = reversed.pop() {
                compounds.push(compound);
            }
        }
        Ok(CompoundPlan { heads, compound_of, compounds })
    }
}

/// Parts share a compound exactly when a chain of welds, rigid links and
/// mounted heads joins them.
pub proof fn parts_share_a_compound_when_joined(
    graph: &ConstructionGraph,
    static_parts: Seq<PartId>,
    plan: CompoundPlan,
    a: PartId,
    b: PartId,
)
    requires
        graph.wf(),
        graph.planned(static_parts, plan),
        graph.has_part(a),
        graph.has_part(b),
    ensures
        plan.compound_of@[graph.dense(a)] == plan.compound_of@[graph.dense(b)] <==> connected(
            graph.group_links(),
            graph.dense(a),
            graph.dense(b),
        ),
{
}

/// The ends of a link are joined.
proof fn lemma_link_joins(links: Seq<Link>, k: int)
    requires
        0 <= k < links.len(),
    ensures
        connected(links, links[k].0, links[k].1),
{
    assert forall|group: Set<int>| #[trigger] closed_under(group, links) implies (group.contains(
        links[k].0,
    ) <==> group.contains(links[k].1)) by {
        let link = links[k];
    }
}

/// The row of a live part names it.
proof fn lemma_dense(graph: &ConstructionGraph, part: PartId)
    requires
        graph.wf(),
        graph.has_part(part),
    ensures
        0 <= graph.dense(part) < graph.parts.rows.keys@.len(),
        graph.parts.rows.keys@[graph.dense(part)] == part,
{
    assert(graph.parts.rows.keys@.contains(part));
}

/// Parts that a weld or a rigid link holds together are one body, and so are a
/// mounted head and the part attached to it.
pub proof fn welded_parts_are_one_body(
    graph: &ConstructionGraph,
    static_parts: Seq<PartId>,
    plan: CompoundPlan,
    a: PartId,
    b: PartId,
    i: int,
)
    requires
        graph.wf(),
        graph.references_live(),
        graph.planned(static_parts, plan),
        graph.has_part(a),
        graph.has_part(b),
    ensures
        0 <= i < graph.welds.rows.values@.len() && graph.welds.rows.values@[i].first.owner
            == FaceOwner::Part(a) && graph.welds.rows.values@[i].second.owner == FaceOwner::Part(b)
            ==> plan.compound_of@[graph.dense(a)] == plan.compound_of@[graph.dense(b)],
        0 <= i < graph.rigid_links.rows.values@.len() && graph.rigid_links.rows.values@[i].first
            == a && graph.rigid_links.rows.values@[i].second == b
            ==> plan.compound_of@[graph.dense(a)] == plan.compound_of@[graph.dense(b)],
        0 <= i < graph.bearings.rows.values@.len() ==> {
            let joint = graph.bearings.rows.values@[i];
            let at = plan.heads@.index_of(head_of(joint));
            joint.kind.owns_head && joint.target is Some && joint.target->0.owner
                == FaceOwner::Part(a) ==> 0 <= at < plan.heads@.len() && plan.heads@[at] == head_of(
                joint,
            ) && plan.compound_of@[graph.parts.rows.keys@.len() + at]
                == plan.compound_of@[graph.dense(a)]
        },
{
    let links = graph.group_links();
    let bearings = graph.bearings.rows.values@.len() as int;
    let welds = graph.welds.rows.values@.len() as int;
    lemma_dense(graph, a);
    lemma_dense(graph, b);
    if 0 <= i < graph.welds.rows.values@.len() {
        assert(links[bearings + i] == graph.weld_link(i));
        lemma_link_joins(links, bearings + i);
    }
    if 0 <= i < graph.rigid_links.rows.values@.len() {
        assert(links[bearings + welds + i] == graph.rigid_link(i));
        lemma_link_joins(links, bearings + welds + i);
    }
    if 0 <= i < bearings && graph.bearings.rows.values@[i].kind.owns_head {
        let joint = graph.bearings.rows.values@[i];
        lemma_heads(graph, bearings);
        assert(graph.all_heads().contains(head_of(joint)));
        let at = graph.all_heads().index_of(head_of(joint));
        assert(graph.all_heads()[at] == head_of(joint));
        assert(links[i] == graph.bearing_link(i));
        lemma_link_joins(links, i);
    }
}

/// Parts are one body only for a weld, a rigid link or a mounted head: whatever
/// none of these reaches across stays apart, however many joints do.
pub proof fn joints_keep_bodies_apart(
    graph: &ConstructionGraph,
    static_parts: Seq<PartId>,
    plan: CompoundPlan,
    side: Set<PartId>,
    mounted: Set<HeadKey>,
    a: PartId,
    b: PartId,
)
    requires
        graph.wf(),
        graph.references_live(),
        graph.planned(static_parts, plan),
        graph.has_part(a),
        graph.has_part(b),
        side.contains(a),
        !side.contains(b),
        forall|i: int, p: PartId, q: PartId|
            #![trigger graph.welds.rows.values@[i], side.contains(p), side.contains(q)]
            0 <= i < graph.welds.rows.values@.len() && graph.welds.rows.values@[i].first.owner
                == FaceOwner::Part(p) && graph.welds.rows.values@[i].second.owner
                == FaceOwner::Part(q) ==> (side.contains(p) <==> side.contains(q)),
        forall|i: int|
            #![trigger graph.rigid_links.rows.values@[i]]
            0 <= i < graph.rigid_links.rows.values@.len() ==> (side.contains(
                graph.rigid_links.rows.values@[i].first,
            ) <==> side.contains(graph.rigid_links.rows.values@[i].second)),
        forall|i: int|
            #![trigger graph.bearings.rows.values@[i]]
            0 <= i < graph.bearings.rows.values@.len() && graph.bearings.rows.values@[i].target
                is Some && graph.all_heads().contains(head_of(graph.bearings.rows.values@[i])) ==> (
            mounted.contains(head_of(graph.bearings.rows.values@[i])) <==> side.contains(
                graph.bearings.rows.values@[i].target->0.owner->Part_0,
            )),
    ensures
        plan.compound_of@[graph.dense(a)] != plan.compound_of@[graph.dense(b)],
{
    let keys = graph.parts.rows.keys@;
    let heads = graph.all_heads();
    let links = graph.group_links();
    let bearings = graph.bearings.rows.values@.len() as int;
    let welds = graph.welds.rows.values@.len() as int;
    let group = Set::new(
        |row: int|
            if 0 <= row < keys.len() {
                side.contains(keys[row])
            } else {
                0 <= row - keys.len() < heads.len() && mounted.contains(heads[row - keys.len()])
            },
    );
    lemma_dense(graph, a);
    lemma_dense(graph, b);
    assert(closed_under(group, links)) by {
        assert forall|k: int| #![trigger links[k]] 0 <= k < links.len() implies (group.contains(
            links[k].0,
        ) <==> group.contains(links[k].1)) by {
            if k < bearings {
                assert(links[k] == graph.bearing_link(k));
                let joint = graph.bearings.rows.values@[k];
                assert(graph.bearing_live(joint));
                if joint.target is Some && heads.contains(head_of(joint)) {
                    lemma_dense(graph, joint.target->0.owner->Part_0);
                    let at = heads.index_of(head_of(joint));
                    assert(heads[at] == head_of(joint));
                }
            } else if k < bearings + welds {
                let i = k - bearings;
                assert(links[k] == graph.weld_link(i));
                let weld = graph.welds.rows.values@[i];
                assert(graph.owner_live(weld.first.owner) && graph.owner_live(weld.second.owner));
                match (weld.first.owner, weld.second.owner) {
                    (FaceOwner::Part(p), FaceOwner::Part(q)) => {
                        lemma_dense(graph, p);
                        lemma_dense(graph, q);
                        assert(side.contains(p) <==> side.contains(q));
                    },
                    _ => {},
                }
            } else {
                let i = k - bearings - welds;
                assert(links[k] == graph.rigid_link(i));
                let link = graph.rigid_links.rows.values@[i];
                assert(graph.has_part(link.first) && graph.has_part(link.second));
                lemma_dense(graph, link.first);
                lemma_dense(graph, link.second);
            }
        }
    }
    let one = plan.compound_of@[graph.dense(a)];
    let two = plan.compound_of@[graph.dense(b)];
    assert(group.contains(graph.dense(a)));
    assert(!group.contains(graph.dense(b)));
    assert(!connected(links, graph.dense(a), graph.dense(b)));
}

/// What the first parts of a compound are.
proof fn lemma_listed_parts(keys: Seq<PartId>, compound_of: Seq<u32>, c: int, count: int, part: PartId)
    requires
        0 <= count <= keys.len(),
    ensures
        parts_in(keys, compound_of, c, count).contains(part) <==> exists|i: int|
            0 <= i < count && #[trigger] keys[i] == part && compound_of[i] == c,
    decreases count,
{
    if count > 0 {
        lemma_listed_parts(keys, compound_of, c, count - 1, part);
        let before = parts_in(keys, compound_of, c, count - 1);
        let now = parts_in(keys, compound_of, c, count);
        if before.contains(part) {
            let at = before.index_of(part);
            assert(now[at] == part);
        }
        if keys[count - 1] == part && compound_of[count - 1] == c {
            assert(now[now.len() - 1] == part);
        }
        if now.contains(part) && !before.contains(part) {
            let at = now.index_of(part);
            assert(now[at] == part);
            if at < before.len() {
                assert(before[at] == part);
            }
        }
    }
}

/// A compound lists the parts of its row and no others, and is held still when
/// one of them is: named from outside, or welded to the ground.
pub proof fn compounds_list_their_parts(
    graph: &ConstructionGraph,
    static_parts: Seq<PartId>,
    plan: CompoundPlan,
    c: int,
    part: PartId,
)
    requires
        graph.wf(),
        graph.planned(static_parts, plan),
        0 <= c < plan.compounds@.len(),
    ensures
        plan.compounds@[c].source_parts@.contains(part) <==> graph.has_part(part)
            && plan.compound_of@[graph.dense(part)] == c,
        graph.has_part(part) && plan.compound_of@[graph.dense(part)] == c && static_parts.contains(
            part,
        ) ==> plan.compounds@[c].is_static,
        plan.compounds@[c].is_static ==> exists|held: PartId| #[trigger]
            plan.compounds@[c].source_parts@.contains(held) && graph.grounded(static_parts, held),
{
    let keys = graph.parts.rows.keys@;
    let compound_of = plan.compound_of@;
    let n = keys.len() as int;
    assert(graph.fills_compound(static_parts, compound_of, c, plan.compounds@[c]));
    lemma_listed_parts(keys, compound_of, c, n, part);
    if plan.compounds@[c].source_parts@.contains(part) {
        let i = choose|i: int| 0 <= i < n && #[trigger] keys[i] == part && compound_of[i] == c;
        graph.parts.rows.lemma_index(i);
    }
    if graph.has_part(part) {
        lemma_dense(graph, part);
        let row = graph.dense(part);
        assert(keys[row] == part);
        if compound_of[row] == c && static_parts.contains(part) {
            assert(graph.grounded(static_parts, keys[row]));
            assert(graph.anchors_compound(static_parts, compound_of, c, n));
        }
    }
    if plan.compounds@[c].is_static {
        let i = choose|i: int|
            0 <= i < n && #[trigger] compound_of[i] == c && graph.grounded(static_parts, keys[i]);
        lemma_listed_parts(keys, compound_of, c, n, keys[i]);
        assert(plan.compounds@[c].source_parts@.contains(keys[i]));
    }
}

/// A weld to the ground holds its part's body still.
pub proof fn ground_welds_hold_bodies_still(
    graph: &ConstructionGraph,
    static_parts: Seq<PartId>,
    plan: CompoundPlan,
    part: PartId,
    i: int,
)
    requires
        graph.wf(),
        graph.planned(static_parts, plan),
        graph.has_part(part),
        0 <= i < graph.welds.rows.values@.len(),
        ({
            let weld = graph.welds.rows.values@[i];
            ||| weld.first.owner == FaceOwner::Part(part) && weld.second.owner is Ground
            ||| weld.second.owner == FaceOwner::Part(part) && weld.first.owner is Ground
        }),
    ensures
        plan.compounds@[plan.compound_of@[graph.dense(part)] as int].is_static,
{
    let keys = graph.parts.rows.keys@;
    let compound_of = plan.compound_of@;
    lemma_dense(graph, part);
    let row = graph.dense(part);
    let c = compound_of[row] as int;
    assert(c < plan.compounds@.len());
    assert(graph.fills_compound(static_parts, compound_of, c, plan.compounds@[c]));
    assert(graph.weld_grounds(i, part));
    assert(graph.grounded(static_parts, keys[row]));
    assert(compound_of[row] == c);
    assert(graph.anchors_compound(static_parts, compound_of, c, keys.len() as int));
}

/// A compound lists a region exactly when that owns one of its parts, and none
/// twice.
pub proof fn compounds_list_their_regions(
    graph: &ConstructionGraph,
    compound_of: Seq<u32>,
    c: int,
    count: int,
    region: RegionId,
)
    requires
        0 <= count <= graph.parts.rows.keys@.len(),
    ensures
        graph.regions_in(compound_of, c, count).contains(region) <==> exists|i: int|
            #![trigger graph.parts.rows.keys@[i]]
            0 <= i < count && compound_of[i] == c && graph.region_owning(graph.parts.rows.keys@[i])
                == Some(region),
        graph.regions_in(compound_of, c, count).no_duplicates(),
    decreases count,
{
    if count > 0 {
        compounds_list_their_regions(graph, compound_of, c, count - 1, region);
        let before = graph.regions_in(compound_of, c, count - 1);
        let now = graph.regions_in(compound_of, c, count);
        let last = graph.parts.rows.keys@[count - 1];
        if before.contains(region) {
            let at = before.index_of(region);
            assert(now[at] == region);
        }
        if compound_of[count - 1] == c && graph.region_owning(last) == Some(region)
            && !before.contains(region) {
            assert(now[now.len() - 1] == region);
        }
        if now.contains(region) && !before.contains(region) {
            let at = now.index_of(region);
            assert(now[at] == region);
            if at < before.len() {
                assert(before[at] == region);
            }
        }
    }
}

/// Where the first parts of a compound stand.
proof fn lemma_listed_places(
    keys: Seq<PartId>,
    compound_of: Seq<u32>,
    c: int,
    count: int,
    i: int,
    j: int,
)
    requires
        0 <= count <= keys.len(),
        keys.no_duplicates(),
        0 <= i < j < parts_in(keys, compound_of, c, count).len(),
    ensures
        ({
            let listed = parts_in(keys, compound_of, c, count);
            &&& keys.contains(listed[i]) && keys.contains(listed[j])
            &&& keys.index_of(listed[i]) < keys.index_of(listed[j])
        }),
    decreases count,
{
    let listed = parts_in(keys, compound_of, c, count);
    let before = parts_in(keys, compound_of, c, count - 1);
    if count > 0 {
        if j < before.len() {
            lemma_listed_places(keys, compound_of, c, count - 1, i, j);
        } else {
            assert(listed[i] == before[i]);
            assert(before.contains(before[i]));
            lemma_listed_parts(keys, compound_of, c, count - 1, before[i]);
            let at = choose|at: int|
                0 <= at < count - 1 && #[trigger] keys[at] == before[i] && compound_of[at] == c;
            assert(keys[at] == listed[i]);
            assert(keys[keys.index_of(listed[i])] == listed[i]);
            assert(keys.index_of(listed[i]) == at);
            assert(listed[j] == keys[count - 1]);
            assert(keys[keys.index_of(listed[j])] == listed[j]);
            assert(keys.index_of(listed[j]) == count - 1);
        }
    }
}

/// A compound lists its parts in row order, and of two compounds the one whose
/// first row comes earlier stands first.
pub proof fn compounds_stand_in_row_order(
    graph: &ConstructionGraph,
    static_parts: Seq<PartId>,
    plan: CompoundPlan,
    c: int,
    i: int,
    j: int,
)
    requires
        graph.wf(),
        graph.planned(static_parts, plan),
        0 <= i < j,
    ensures
        0 <= c < plan.compounds@.len() && j < plan.compounds@[c].source_parts@.len() ==> graph.dense(
            plan.compounds@[c].source_parts@[i],
        ) < graph.dense(plan.compounds@[c].source_parts@[j]),
        j < plan.compound_of@.len() && (forall|k: int|
            #![trigger plan.compound_of@[k]]
            0 <= k < i ==> plan.compound_of@[k] != plan.compound_of@[i]) && (forall|k: int|
            #![trigger plan.compound_of@[k]]
            0 <= k < j ==> plan.compound_of@[k] != plan.compound_of@[j]) ==> plan.compound_of@[i]
            < plan.compound_of@[j],
{
    let keys = graph.parts.rows.keys@;
    let compound_of = plan.compound_of@;
    if 0 <= c < plan.compounds@.len() && j < plan.compounds@[c].source_parts@.len() {
        assert(graph.fills_compound(static_parts, compound_of, c, plan.compounds@[c]));
        assert(keys.no_duplicates()) by {
            assert forall|a: int, b: int|
                #![trigger keys[a], keys[b]]
                0 <= a < keys.len() && 0 <= b < keys.len() && a != b implies keys[a] != keys[b] by {
                graph.parts.rows.lemma_index(a);
                graph.parts.rows.lemma_index(b);
            }
        }
        lemma_listed_places(keys, compound_of, c, keys.len() as int, i, j);
    }
    if j < compound_of.len() {
        if opens_compound(compound_of, i) && opens_compound(compound_of, j) {
            assert(compound_of[i] < compound_of[j]);
        }
    }
}

} // verus!
