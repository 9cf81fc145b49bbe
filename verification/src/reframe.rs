//! Moving selected parts onto grids of their own.

use vstd::prelude::*;

use crate::frame::{ConstructionFrame, ConstructionFrameId, ConstructionFrames, FrameError};
use crate::framing::{moved_bearing, BearingMotion};
use crate::graph::ConstructionGraph;
use crate::ids::{BearingId, PartId, RegionId};
use crate::ordered::{lemma_take_next, OrderedSet};
use crate::parts::{BearingSpec, FaceOwner};

verus! {

/// Whether a face belongs to a selected part.
pub open spec fn selected(parts: Seq<PartId>, owner: FaceOwner) -> bool {
    match owner {
        FaceOwner::Part(part) => parts.contains(part),
        FaceOwner::Ground => false,
    }
}

/// Whether the attached side of a joint is selected; a bare head goes with its support.
pub open spec fn target_selected(parts: Seq<PartId>, bearing: BearingSpec) -> bool {
    match bearing.target {
        Some(face) => selected(parts, face.owner),
        None => selected(parts, bearing.source.owner),
    }
}

impl ConstructionGraph {
    /// Parts of one region stand on one grid.
    pub open spec fn regions_undivided(&self) -> bool {
        forall|a: PartId, b: PartId|
            #![trigger self.region_owning(a), self.region_owning(b)]
            self.has_part(a) && self.has_part(b) && self.region_owning(a) is Some
                && self.region_owning(a) == self.region_owning(b) ==> self.frame_of_part(a)
                == self.frame_of_part(b)
    }

    /// Whether a live part outside the selection belongs to `region`.
    pub open spec fn left_behind(&self, parts: Seq<PartId>, region: RegionId) -> bool {
        exists|other: PartId| #[trigger]
            self.region_owning(other) == Some(region) && self.has_part(other) && !parts.contains(
                other,
            )
    }

    /// Why a part cannot be reframed with the selection, if it cannot.
    pub open spec fn part_fault(&self, parts: Seq<PartId>, part: PartId) -> Option<FrameError> {
        if !self.has_part(part) {
            Some(FrameError::MissingPart(part))
        } else {
            match self.region_owning(part) {
                Some(region) => if self.left_behind(parts, region) {
                    Some(FrameError::PartialRegion(region))
                } else {
                    None
                },
                None => None,
            }
        }
    }

    /// The fault of the first of the first `count` selected parts that has one.
    pub open spec fn first_part_fault(&self, parts: Seq<PartId>, count: int) -> Option<FrameError>
        decreases count,
    {
        if count <= 0 {
            None
        } else if self.first_part_fault(parts, count - 1) is Some {
            self.first_part_fault(parts, count - 1)
        } else {
            self.part_fault(parts, parts[count - 1])
        }
    }

    /// The first of the first `count` joints that has one side in the selection.
    pub open spec fn first_split_bearing(&self, parts: Seq<PartId>, count: int) -> Option<BearingId>
        decreases count,
    {
        if count <= 0 {
            None
        } else if self.first_split_bearing(parts, count - 1) is Some {
            self.first_split_bearing(parts, count - 1)
        } else {
            let bearing = self.bearings.rows.values@[count - 1];
            if selected(parts, bearing.source.owner) != target_selected(parts, bearing) {
                Some(self.bearings.rows.keys@[count - 1])
            } else {
                None
            }
        }
    }

    /// Whether a selected part stands on the grid at position `at`.
    pub open spec fn grid_used(&self, parts: Seq<PartId>, at: int) -> bool {
        exists|i: int|
            0 <= i < parts.len() && self.frame_of_part(#[trigger] parts[i]) == Some(
                self.frames.frames.keys@[at],
            )
    }

    /// How many of the first `count` grids the selection stands on.
    pub open spec fn grids_used(&self, parts: Seq<PartId>, count: int) -> int
        decreases count,
    {
        if count <= 0 {
            0
        } else {
            self.grids_used(parts, count - 1) + if self.grid_used(parts, count - 1) {
                1int
            } else {
                0int
            }
        }
    }

    /// Why a selection cannot be reframed, if it cannot: its parts, then its
    /// joints, then the identities left.
    pub open spec fn reframe_fault(&self, parts: Seq<PartId>) -> Option<FrameError> {
        if self.first_part_fault(parts, parts.len() as int) is Some {
            self.first_part_fault(parts, parts.len() as int)
        } else {
            match self.first_split_bearing(parts, self.bearings.rows.keys@.len() as int) {
                Some(bearing) => Some(FrameError::PartialBearing(bearing)),
                None => if self.frames.next_id + self.grids_used(
                    parts,
                    self.frames.frames.keys@.len() as int,
                ) > u64::MAX {
                    Some(FrameError::Exhausted)
                } else {
                    None
                },
            }
        }
    }

    /// The grid that takes the place of the one at position `at`.
    pub open spec fn new_grid(&self, parts: Seq<PartId>, at: int) -> ConstructionFrameId {
        ConstructionFrameId((self.frames.next_id + self.grids_used(parts, at)) as u64)
    }

    /// The grid that a selected part moves to.
    pub open spec fn grid_after(&self, parts: Seq<PartId>, part: PartId) -> ConstructionFrameId {
        self.new_grid(parts, self.frames.frames.keys@.index_of(self.frame_of_part(part)->0))
    }

    /// The transforms of the new grids among the first `count`.
    pub open spec fn new_transforms(
        &self,
        parts: Seq<PartId>,
        composed: Seq<ConstructionFrame>,
        count: int,
    ) -> Seq<ConstructionFrame>
        decreases count,
    {
        if count <= 0 {
            Seq::empty()
        } else if self.grid_used(parts, count - 1) {
            self.new_transforms(parts, composed, count - 1).push(composed[count - 1])
        } else {
            self.new_transforms(parts, composed, count - 1)
        }
    }

    /// What reframing does to a construction.
    pub open spec fn reframed(
        &self,
        before: &Self,
        parts: Seq<PartId>,
        composed: Seq<ConstructionFrame>,
        motions: Seq<BearingMotion>,
    ) -> bool {
        let grids = before.frames.frames.keys@.len() as int;
        // Every grid in use gets a successor; the old grids stay.
        &&& self.frames.frames.values@ == before.frames.frames.values@ + before.new_transforms(
            parts,
            composed,
            grids,
        )
        &&& self.frames.frames.keys@ == before.frames.frames.keys@ + Seq::new(
            before.grids_used(parts, grids) as nat,
            |k: int| ConstructionFrameId((before.frames.next_id + k) as u64),
        )
        &&& self.frames.next_id == before.frames.next_id + before.grids_used(parts, grids)
        // Selected parts and the regions they make up move to the successors.
        &&& forall|part: PartId| #[trigger]
            self.frames.members@.dom().contains(part) <==> before.frames.members@.dom().contains(
                part,
            ) || parts.contains(part)
        &&& forall|part: PartId| #[trigger]
            self.frames.members@.dom().contains(part) ==> self.frames.members@[part]
                == if parts.contains(part) {
                before.grid_after(parts, part)
            } else {
                before.frames.members@[part]
            }
        &&& forall|region: RegionId| #[trigger]
            self.frames.region_frames@.dom().contains(region)
                <==> before.frames.region_frames@.dom().contains(region) || owns_selected(
                before,
                parts,
                region,
            )
        &&& forall|region: RegionId, part: PartId|
            #![trigger self.frames.region_frames@[region], parts.contains(part)]
            parts.contains(part) && before.region_owning(part) == Some(region)
                ==> self.frames.region_frames@[region] == before.grid_after(parts, part)
        &&& forall|region: RegionId| #[trigger]
            self.frames.region_frames@.dom().contains(region) && !owns_selected(
                before,
                parts,
                region,
            ) ==> self.frames.region_frames@[region] == before.frames.region_frames@[region]
        // Joints inside the selection move with it.
        &&& self.bearings.rows.keys@ == before.bearings.rows.keys@
        &&& self.bearings.ages == before.bearings.ages
        &&& self.bearings.vacant == before.bearings.vacant
        &&& self.bearings.rows.values@.len() == before.bearings.rows.values@.len()
        &&& forall|i: int|
            #![trigger self.bearings.rows.values@[i]]
            0 <= i < self.bearings.rows.values@.len() ==> {
                let bearing = before.bearings.rows.values@[i];
                self.bearings.rows.values@[i] == if selected(parts, bearing.source.owner) {
                    moved_bearing(bearing, motions[i])
                } else {
                    bearing
                }
            }
    }
}

/// Whether a selected part belongs to `region`.
pub open spec fn owns_selected(
    graph: &ConstructionGraph,
    parts: Seq<PartId>,
    region: RegionId,
) -> bool {
    exists|i: int|
        0 <= i < parts.len() && graph.region_owning(#[trigger] parts[i]) == Some(region)
}

/// Whether a face belongs to a selected part.
fn is_selected(parts: &OrderedSet<PartId>, owner: FaceOwner) -> (inside: bool)
    requires
        parts.wf(),
    ensures
        inside == selected(parts@, owner),
{
    match owner {
        FaceOwner::Part(part) => parts.contains(part),
        FaceOwner::Ground => false,
    }
}

impl ConstructionGraph {
    /// Whether the live parts of every region stand on one grid.
    pub fn regions_are_undivided(&self) -> (undivided: bool)
        requires
            self.wf(),
        ensures
            undivided == self.regions_undivided(),
    {
        let mut i: usize = 0;
        while i < self.parts.rows.keys.len()
            invariant
                self.wf(),
                i <= self.parts.rows.keys@.len(),
                forall|a: int, b: int|
                    0 <= a < i && 0 <= b < self.parts.rows.keys@.len()
                        ==> #[trigger] self.stand_together(a, b),
            decreases self.parts.rows.keys@.len() - i,
        {
            let part: PartId = self.parts.rows.keys[i];
            let mut j: usize = 0;
            while j < self.parts.rows.keys.len()
                invariant
                    self.wf(),
                    i < self.parts.rows.keys@.len(),
                    part == self.parts.rows.keys@[i as int],
                    j <= self.parts.rows.keys@.len(),
                    forall|b: int| 0 <= b < j ==> #[trigger] self.stand_together(i as int, b),
                decreases self.parts.rows.keys@.len() - j,
            {
                let other: PartId = self.parts.rows.keys[j];
                let apart: bool = self.region_of(part).is_some() && self.region_of(part)
                    == self.region_of(other) && self.part_frame_id(part) != self.part_frame_id(
                    other,
                );
                if apart {
                    proof {
                        self.parts.rows.lemma_index(i as int);
                        self.parts.rows.lemma_index(j as int);
                        assert(self.region_owning(part) == self.region_owning(other));
                    }
                    return false;
                }
                assert(self.stand_together(i as int, j as int));
                j += 1;
            }
            i += 1;
        }
        proof {
            assert forall|a: PartId, b: PartId|
                #![trigger self.region_owning(a), self.region_owning(b)]
                self.has_part(a) && self.has_part(b) && self.region_owning(a) is Some
                    && self.region_owning(a) == self.region_owning(b) implies self.frame_of_part(a)
                == self.frame_of_part(b) by {
                let keys = self.parts.rows.keys@;
                let p = keys.index_of(a);
                let q = keys.index_of(b);
                assert(keys[p] == a && keys[q] == b);
                assert(self.stand_together(p, q));
            }
        }
        true
    }

    /// Whether the parts in two rows stand on one grid if one region holds both.
    pub open spec fn stand_together(&self, a: int, b: int) -> bool {
        let first = self.parts.rows.keys@[a];
        let second = self.parts.rows.keys@[b];
        self.region_owning(first) is Some && self.region_owning(first) == self.region_owning(second)
            ==> self.frame_of_part(first) == self.frame_of_part(second)
    }

    /// Whether a live part outside the selection belongs to `region`.
    fn leaves_behind(&self, parts: &OrderedSet<PartId>, region: RegionId) -> (left: bool)
        requires
            self.wf(),
            parts.wf(),
        ensures
            left == self.left_behind(parts@, region),
    {
        let mut i: usize = 0;
        while i < self.parts.rows.keys.len()
            invariant
                self.wf(),
                parts.wf(),
                i <= self.parts.rows.keys@.len(),
                forall|k: int|
                    #![trigger self.parts.rows.keys@[k]]
                    0 <= k < i ==> self.region_owning(self.parts.rows.keys@[k]) != Some(region)
                        || parts@.contains(self.parts.rows.keys@[k]),
            decreases self.parts.rows.keys@.len() - i,
        {
            let other: PartId = self.parts.rows.keys[i];
            if self.region_of(other) == Some(region) && !parts.contains(other) {
                proof {
                    self.parts.rows.lemma_index(i as int);
                    assert(self.region_owning(other) == Some(region) && self.has_part(other)
                        && !parts@.contains(other));
                }
                return true;
            }
            i += 1;
        }
        proof {
            assert forall|other: PartId| #[trigger] self.region_owning(other) == Some(region)
                && self.has_part(other) implies parts@.contains(other) by {
                let k = self.parts.rows.keys@.index_of(other);
                assert(self.parts.rows.keys@[k] == other);
            }
        }
        false
    }

    /// The first fault among the selected parts.
    fn check_parts(&self, parts: &OrderedSet<PartId>) -> (fault: Option<FrameError>)
        requires
            self.wf(),
            parts.wf(),
        ensures
            fault == self.first_part_fault(parts@, parts@.len() as int),
            fault is None ==> forall|i: int|
                0 <= i < parts@.len() ==> self.has_part(#[trigger] parts@[i]),
    {
        let mut i: usize = 0;
        while i < parts.len()
            invariant
                self.wf(),
                parts.wf(),
                i <= parts@.len(),
                self.first_part_fault(parts@, i as int) is None,
                forall|k: int| 0 <= k < i ==> self.has_part(#[trigger] parts@[k]),
            decreases parts@.len() - i,
        {
            let part: PartId = parts.item(i);
            if self.part(part).is_none() {
                proof {
                    lemma_part_fault_stays(self, parts@, i + 1, parts@.len() as int);
                }
                return Some(FrameError::MissingPart(part));
            }
            if let Some(region) = self.region_of(part) {
                if self.leaves_behind(parts, region) {
                    proof {
                        lemma_part_fault_stays(self, parts@, i + 1, parts@.len() as int);
                    }
                    return Some(FrameError::PartialRegion(region));
                }
            }
            i += 1;
        }
        None
    }

    /// The first joint that has one side in the selection.
    fn check_bearings(&self, parts: &OrderedSet<PartId>) -> (split: Option<BearingId>)
        requires
            self.wf(),
            parts.wf(),
        ensures
            split == self.first_split_bearing(parts@, self.bearings.rows.keys@.len() as int),
    {
        let mut i: usize = 0;
        while i < self.bearings.rows.values.len()
            invariant
                self.wf(),
                parts.wf(),
                i <= self.bearings.rows.values@.len(),
                self.first_split_bearing(parts@, i as int) is None,
            decreases self.bearings.rows.values@.len() - i,
        {
            let bearing: BearingSpec = self.bearings.rows.values[i];
            let first: bool = is_selected(parts, bearing.source.owner);
            let second: bool = match bearing.target {
                Some(face) => is_selected(parts, face.owner),
                None => first,
            };
            if first != second {
                proof {
                    lemma_split_stays(self, parts@, i + 1, self.bearings.rows.keys@.len() as int);
                }
                return Some(self.bearings.rows.keys[i]);
            }
            i += 1;
        }
        None
    }

    /// Marks the grids that the selection stands on.
    fn mark_grids(&self, parts: &OrderedSet<PartId>) -> (used: Vec<bool>)
        requires
            self.wf(),
            parts.wf(),
        ensures
            used@.len() == self.frames.frames.keys@.len(),
            forall|at: int|
                #![trigger used@[at]]
                0 <= at < used@.len() ==> used@[at] == self.grid_used(parts@, at),
    {
        let count: usize = self.frames.frames.keys.len();
        let mut used: Vec<bool> = Vec::new();
        let mut k: usize = 0;
        while k < count
            invariant
                k <= count,
                used@.len() == k,
                forall|at: int| #![trigger used@[at]] 0 <= at < k ==> !used@[at],
            decreases count - k,
        {
            used.push(false);
            k += 1;
        }
        let mut i: usize = 0;
        while i < parts.len()
            invariant
                self.wf(),
                parts.wf(),
                i <= parts@.len(),
                count == self.frames.frames.keys@.len(),
                used@.len() == count,
                forall|at: int|
                    #![trigger used@[at]]
                    0 <= at < count ==> (used@[at] <==> exists|j: int|
                        0 <= j < i && self.frame_of_part(#[trigger] parts@[j]) == Some(
                            self.frames.frames.keys@[at],
                        )),
            decreases parts@.len() - i,
        {
            let ghost before = used@;
            match self.part_frame_id(parts.item(i)) {
                Some(frame) => match self.frames.frames.index_of(frame) {
                    Some(at) => {
                        used.set(at, true);
                        proof {
                            assert forall|q: int| #![trigger used@[q]] 0 <= q < count implies (
                            used@[q] <==> exists|j: int|
                                0 <= j < i + 1 && self.frame_of_part(#[trigger] parts@[j]) == Some(
                                    self.frames.frames.keys@[q],
                                )) by {
                                assert(before[q] == used@[q] || q == at);
                                if q == at {
                                    assert(self.frame_of_part(parts@[i as int]) == Some(
                                        self.frames.frames.keys@[q],
                                    ));
                                } else {
                                    if self.frame_of_part(parts@[i as int]) == Some(
                                        self.frames.frames.keys@[q],
                                    ) {
                                        self.frames.frames.lemma_index(q);
                                        self.frames.frames.lemma_index(at as int);
                                    }
                                    if before[q] {
                                        let j = choose|j: int|
                                            0 <= j < i && self.frame_of_part(#[trigger] parts@[j])
                                                == Some(self.frames.frames.keys@[q]);
                                        assert(self.frame_of_part(parts@[j]) == Some(
                                            self.frames.frames.keys@[q],
                                        ));
                                    }
                                }
                            }
                        }
                    },
                    None => {
                        proof {
                            assert forall|q: int| #![trigger used@[q]] 0 <= q < count implies (
                            used@[q] <==> exists|j: int|
                                0 <= j < i + 1 && self.frame_of_part(#[trigger] parts@[j]) == Some(
                                    self.frames.frames.keys@[q],
                                )) by {
                                assert(self.frames.frames.keys@.contains(
                                    self.frames.frames.keys@[q],
                                ));
                                if before[q] {
                                    let j = choose|j: int|
                                        0 <= j < i && self.frame_of_part(#[trigger] parts@[j])
                                            == Some(self.frames.frames.keys@[q]);
                                    assert(self.frame_of_part(parts@[j]) == Some(
                                        self.frames.frames.keys@[q],
                                    ));
                                }
                            }
                        }
                    },
                },
                None => {
                    proof {
                        assert forall|q: int| #![trigger used@[q]] 0 <= q < count implies (used@[q]
                            <==> exists|j: int|
                            0 <= j < i + 1 && self.frame_of_part(#[trigger] parts@[j]) == Some(
                                self.frames.frames.keys@[q],
                            )) by {
                            if before[q] {
                                let j = choose|j: int|
                                    0 <= j < i && self.frame_of_part(#[trigger] parts@[j]) == Some(
                                        self.frames.frames.keys@[q],
                                    );
                                assert(self.frame_of_part(parts@[j]) == Some(
                                    self.frames.frames.keys@[q],
                                ));
                            }
                        }
                    }
                },
            }
            i += 1;
        }
        used
    }
}

/// A fault among the first parts is the first fault of them all.
proof fn lemma_part_fault_stays(
    graph: &ConstructionGraph,
    parts: Seq<PartId>,
    short: int,
    long: int,
)
    requires
        0 <= short <= long,
        graph.first_part_fault(parts, short) is Some,
    ensures
        graph.first_part_fault(parts, long) == graph.first_part_fault(parts, short),
    decreases long - short,
{
    if short < long {
        lemma_part_fault_stays(graph, parts, short, long - 1);
    }
}

/// A split joint among the first joints is the first of them all.
proof fn lemma_split_stays(graph: &ConstructionGraph, parts: Seq<PartId>, short: int, long: int)
    requires
        0 <= short <= long,
        graph.first_split_bearing(parts, short) is Some,
    ensures
        graph.first_split_bearing(parts, long) == graph.first_split_bearing(parts, short),
    decreases long - short,
{
    if short < long {
        lemma_split_stays(graph, parts, short, long - 1);
    }
}

/// No more grids are in use than there are, and later counts only grow.
proof fn lemma_grids_used(graph: &ConstructionGraph, parts: Seq<PartId>, short: int, long: int)
    requires
        0 <= short <= long,
    ensures
        0 <= graph.grids_used(parts, short) <= graph.grids_used(parts, long) <= long,
        graph.grids_used(parts, short) <= short,
        short < long && graph.grid_used(parts, short) ==> graph.grids_used(parts, short)
            < graph.grids_used(parts, long),
    decreases long,
{
    if long > 0 {
        if short < long {
            lemma_grids_used(graph, parts, short, long - 1);
        } else {
            lemma_grids_used(graph, parts, short - 1, long - 1);
        }
    }
}

impl ConstructionGraph {
    /// How many grids the selection stands on.
    fn count_grids(&self, parts: &OrderedSet<PartId>, used: &Vec<bool>) -> (count: usize)
        requires
            used@.len() == self.frames.frames.keys@.len(),
            forall|at: int|
                #![trigger used@[at]]
                0 <= at < used@.len() ==> used@[at] == self.grid_used(parts@, at),
        ensures
            count == self.grids_used(parts@, used@.len() as int),
            count <= used@.len(),
    {
        let mut count: usize = 0;
        let mut at: usize = 0;
        while at < used.len()
            invariant
                at <= used@.len(),
                count <= at,
                count == self.grids_used(parts@, at as int),
                forall|at: int|
                    #![trigger used@[at]]
                    0 <= at < used@.len() ==> used@[at] == self.grid_used(parts@, at),
            decreases used@.len() - at,
        {
            if used[at] {
                count += 1;
            }
            at += 1;
        }
        count
    }

    /// The grid that each selected part moves to.
    fn targets(&self, parts: &OrderedSet<PartId>, used: &Vec<bool>) -> (targets: Vec<
        ConstructionFrameId,
    >)
        requires
            self.wf(),
            parts.wf(),
            forall|i: int| 0 <= i < parts@.len() ==> self.has_part(#[trigger] parts@[i]),
            used@.len() == self.frames.frames.keys@.len(),
            forall|at: int|
                #![trigger used@[at]]
                0 <= at < used@.len() ==> used@[at] == self.grid_used(parts@, at),
            self.frames.next_id + self.grids_used(parts@, used@.len() as int) <= u64::MAX,
        ensures
            targets@.len() == parts@.len(),
            forall|i: int|
                #![trigger targets@[i]]
                0 <= i < targets@.len() ==> targets@[i] == self.grid_after(parts@, parts@[i]),
    {
        let mut successors: Vec<u64> = Vec::new();
        let mut next: u64 = self.frames.next_id;
        let mut at: usize = 0;
        while at < used.len()
            invariant
                at <= used@.len(),
                used@.len() == self.frames.frames.keys@.len(),
                successors@.len() == at,
                next == self.frames.next_id + self.grids_used(parts@, at as int),
                self.frames.next_id + self.grids_used(parts@, used@.len() as int) <= u64::MAX,
                forall|at: int|
                    #![trigger used@[at]]
                    0 <= at < used@.len() ==> used@[at] == self.grid_used(parts@, at),
                forall|q: int|
                    #![trigger successors@[q]]
                    0 <= q < at ==> successors@[q] == self.frames.next_id + self.grids_used(
                        parts@,
                        q,
                    ),
            decreases used@.len() - at,
        {
            successors.push(next);
            if used[at] {
                proof {
                    lemma_grids_used(self, parts@, at as int, used@.len() as int);
                }
                next = next + 1;
            }
            at += 1;
        }
        let mut targets: Vec<ConstructionFrameId> = Vec::new();
        let mut i: usize = 0;
        while i < parts.len()
            invariant
                self.wf(),
                parts.wf(),
                i <= parts@.len(),
                targets@.len() == i,
                forall|i: int| 0 <= i < parts@.len() ==> self.has_part(#[trigger] parts@[i]),
                successors@.len() == self.frames.frames.keys@.len(),
                forall|q: int|
                    #![trigger successors@[q]]
                    0 <= q < successors@.len() ==> successors@[q] == self.frames.next_id
                        + self.grids_used(parts@, q),
                forall|k: int|
                    #![trigger targets@[k]]
                    0 <= k < i ==> targets@[k] == self.grid_after(parts@, parts@[k]),
            decreases parts@.len() - i,
        {
            let part: PartId = parts.item(i);
            let frame: ConstructionFrameId = match self.part_frame_id(part) {
                Some(frame) => frame,
                None => ConstructionFrameId(0),
            };
            proof {
                assert(self.has_part(part));
                if self.frames.members@.dom().contains(part) {
                    assert(self.frames.frames@.dom().contains(self.frames.members@[part]));
                }
                assert(self.frames.frames.keys@.contains(frame));
            }
            match self.frames.frames.index_of(frame) {
                Some(at) => {
                    targets.push(ConstructionFrameId(successors[at]));
                },
                None => {},
            }
            i += 1;
        }
        targets
    }

    /// Adds a successor for every grid in use.
    fn add_successors(
        &mut self,
        parts: &OrderedSet<PartId>,
        used: &Vec<bool>,
        composed: &Vec<ConstructionFrame>,
        Ghost(before): Ghost<ConstructionGraph>,
    )
        requires
            old(self).wf(),
            old(self).frames == before.frames,
            used@.len() == before.frames.frames.keys@.len(),
            composed@.len() == used@.len(),
            forall|at: int|
                #![trigger used@[at]]
                0 <= at < used@.len() ==> used@[at] == before.grid_used(parts@, at),
            before.frames.next_id + before.grids_used(parts@, used@.len() as int) <= u64::MAX,
        ensures
            final(self).wf(),
            final(self).frames.frames.values@ == before.frames.frames.values@
                + before.new_transforms(parts@, composed@, used@.len() as int),
            final(self).frames.frames.keys@ == before.frames.frames.keys@ + Seq::new(
                before.grids_used(parts@, used@.len() as int) as nat,
                |k: int| ConstructionFrameId((before.frames.next_id + k) as u64),
            ),
            final(self).frames.next_id == before.frames.next_id + before.grids_used(
                parts@,
                used@.len() as int,
            ),
            *final(self) == (ConstructionGraph {
                frames: ConstructionFrames {
                    frames: final(self).frames.frames,
                    next_id: final(self).frames.next_id,
                    ..old(self).frames
                },
                ..*old(self)
            }),
    {
        let ghost start = *self;
        let mut at: usize = 0;
        assert(self.frames.frames.values@ =~= before.frames.frames.values@
            + before.new_transforms(parts@, composed@, 0));
        assert(self.frames.frames.keys@ =~= before.frames.frames.keys@ + Seq::new(
            before.grids_used(parts@, 0) as nat,
            |k: int| ConstructionFrameId((before.frames.next_id + k) as u64),
        ));
        while at < used.len()
            invariant
                at <= used@.len(),
                used@.len() == before.frames.frames.keys@.len(),
                composed@.len() == used@.len(),
                self.wf(),
                forall|at: int|
                    #![trigger used@[at]]
                    0 <= at < used@.len() ==> used@[at] == before.grid_used(parts@, at),
                before.frames.next_id + before.grids_used(parts@, used@.len() as int) <= u64::MAX,
                self.frames.frames.values@ == before.frames.frames.values@ + before.new_transforms(
                    parts@,
                    composed@,
                    at as int,
                ),
                self.frames.frames.keys@ == before.frames.frames.keys@ + Seq::new(
                    before.grids_used(parts@, at as int) as nat,
                    |k: int| ConstructionFrameId((before.frames.next_id + k) as u64),
                ),
                self.frames.next_id == before.frames.next_id + before.grids_used(
                    parts@,
                    at as int,
                ),
                *self == (ConstructionGraph {
                    frames: ConstructionFrames {
                        frames: self.frames.frames,
                        next_id: self.frames.next_id,
                        ..start.frames
                    },
                    ..start
                }),
            decreases used@.len() - at,
        {
            if used[at] {
                proof {
                    lemma_grids_used(&before, parts@, at as int, used@.len() as int);
                }
                let ghost keys = self.frames.frames.keys@;
                let ghost values = self.frames.frames.values@;
                let added = self.add_construction_frame(composed[at]);
                proof {
                    assert(added is Ok);
                    assert(self.frames.frames.values@ =~= before.frames.frames.values@
                        + before.new_transforms(parts@, composed@, at + 1));
                    assert(self.frames.frames.keys@ =~= before.frames.frames.keys@ + Seq::new(
                        before.grids_used(parts@, at + 1) as nat,
                        |k: int| ConstructionFrameId((before.frames.next_id + k) as u64),
                    ));
                }
            }
            at += 1;
        }
    }

    /// Moves the joints inside the selection.
    fn move_selected(&mut self, parts: &OrderedSet<PartId>, motions: &Vec<BearingMotion>)
        requires
            old(self).wf(),
            parts.wf(),
            motions@.len() == old(self).bearings.rows.keys@.len(),
        ensures
            final(self).wf(),
            final(self).bearings.rows.keys == old(self).bearings.rows.keys,
            final(self).bearings.ages == old(self).bearings.ages,
            final(self).bearings.vacant == old(self).bearings.vacant,
            final(self).bearings.rows.values@.len() == old(self).bearings.rows.values@.len(),
            forall|i: int|
                #![trigger final(self).bearings.rows.values@[i]]
                0 <= i < final(self).bearings.rows.values@.len() ==> {
                    let bearing = old(self).bearings.rows.values@[i];
                    final(self).bearings.rows.values@[i] == if selected(
                        parts@,
                        bearing.source.owner,
                    ) {
                        moved_bearing(bearing, motions@[i])
                    } else {
                        bearing
                    }
                },
            *final(self) == (ConstructionGraph { bearings: final(self).bearings, ..*old(self) }),
    {
        let ghost before = *self;
        let mut i: usize = 0;
        while i < self.bearings.rows.values.len()
            invariant
                i <= self.bearings.rows.values@.len(),
                before.wf(),
                parts.wf(),
                motions@.len() == before.bearings.rows.keys@.len(),
                self.bearings.rows.keys == before.bearings.rows.keys,
                self.bearings.ages == before.bearings.ages,
                self.bearings.vacant == before.bearings.vacant,
                self.bearings.rows.values@.len() == before.bearings.rows.values@.len(),
                *self == (ConstructionGraph { bearings: self.bearings, ..before }),
                forall|k: int|
                    #![trigger self.bearings.rows.values@[k]]
                    0 <= k < i ==> {
                        let bearing = before.bearings.rows.values@[k];
                        self.bearings.rows.values@[k] == if selected(
                            parts@,
                            bearing.source.owner,
                        ) {
                            moved_bearing(bearing, motions@[k])
                        } else {
                            bearing
                        }
                    },
                forall|k: int|
                    #![trigger self.bearings.rows.values@[k]]
                    i <= k < self.bearings.rows.values@.len() ==> self.bearings.rows.values@[k]
                        == before.bearings.rows.values@[k],
            decreases self.bearings.rows.values@.len() - i,
        {
            let mut bearing: BearingSpec = self.bearings.rows.values[i];
            if is_selected(parts, bearing.source.owner) {
                let motion: BearingMotion = motions[i];
                bearing.shared_anchor = motion.anchor;
                bearing.axis = motion.axis;
                bearing.kind = motion.kind;
                self.bearings.rows.values.set(i, bearing);
            }
            i += 1;
        }
    }

    /// Rigidly reframes selected parts without quantizing their local grid poses.
    ///
    /// `composed` holds the motion composed onto the transform of every grid,
    /// and `motions` what the motion makes of every joint, in row order.
    pub fn reframe_parts(
        &mut self,
        parts: &OrderedSet<PartId>,
        composed: &Vec<ConstructionFrame>,
        motions: &Vec<BearingMotion>,
    ) -> (done: Result<(), FrameError>)
        requires
            old(self).wf(),
            old(self).regions_undivided(),
            parts.wf(),
            composed@.len() == old(self).frames.frames.keys@.len(),
            motions@.len() == old(self).bearings.rows.keys@.len(),
        ensures
            final(self).wf(),
            done == (match old(self).reframe_fault(parts@) {
                Some(error) => Err::<(), FrameError>(error),
                None => Ok(()),
            }),
            done is Err ==> *final(self) == *old(self),
            done is Ok ==> final(self).reframed(old(self), parts@, composed@, motions@),
            final(self).regions_undivided(),
            *final(self) == (ConstructionGraph {
                bearings: final(self).bearings,
                frames: ConstructionFrames {
                    frames: final(self).frames.frames,
                    members: final(self).frames.members,
                    region_frames: final(self).frames.region_frames,
                    next_id: final(self).frames.next_id,
                    ..old(self).frames
                },
                ..*old(self)
            }),
    {
        let ghost before = *self;
        if let Some(error) = self.check_parts(parts) {
            return Err(error);
        }
        if let Some(bearing) = self.check_bearings(parts) {
            return Err(FrameError::PartialBearing(bearing));
        }
        let used: Vec<bool> = self.mark_grids(parts);
        let count: usize = self.count_grids(parts, &used);
        if count as u64 > u64::MAX - self.frames.next_id {
            return Err(FrameError::Exhausted);
        }
        let targets: Vec<ConstructionFrameId> = self.targets(parts, &used);
        self.move_selected(parts, motions);
        self.add_successors(parts, &used, composed, Ghost(before));
        let ghost middle = *self;
        let mut i: usize = 0;
        while i < parts.len()
            invariant
                before.wf(),
                before.regions_undivided(),
                middle.wf(),
                self.wf(),
                parts.wf(),
                i <= parts@.len(),
                targets@.len() == parts@.len(),
                used@.len() == before.frames.frames.keys@.len(),
                before.frames.next_id + before.grids_used(parts@, used@.len() as int) <= u64::MAX,
                middle.frames.members == before.frames.members,
                middle.frames.region_frames == before.frames.region_frames,
                middle.region_members == before.region_members,
                middle.parts == before.parts,
                middle.frames.frames.keys@ == before.frames.frames.keys@ + Seq::new(
                    before.grids_used(parts@, used@.len() as int) as nat,
                    |k: int| ConstructionFrameId((before.frames.next_id + k) as u64),
                ),
                forall|i: int| 0 <= i < parts@.len() ==> before.has_part(#[trigger] parts@[i]),
                forall|k: int|
                    #![trigger targets@[k]]
                    0 <= k < targets@.len() ==> targets@[k] == before.grid_after(
                        parts@,
                        parts@[k],
                    ),
                *self == (ConstructionGraph {
                    frames: ConstructionFrames {
                        members: self.frames.members,
                        region_frames: self.frames.region_frames,
                        ..middle.frames
                    },
                    ..middle
                }),
                forall|part: PartId| #[trigger]
                    self.frames.members@.dom().contains(part)
                        <==> before.frames.members@.dom().contains(part) || parts@.take(
                        i as int,
                    ).contains(part),
                forall|part: PartId| #[trigger]
                    self.frames.members@.dom().contains(part) ==> self.frames.members@[part]
                        == if parts@.take(i as int).contains(part) {
                        before.grid_after(parts@, part)
                    } else {
                        before.frames.members@[part]
                    },
                forall|region: RegionId| #[trigger]
                    self.frames.region_frames@.dom().contains(region)
                        <==> before.frames.region_frames@.dom().contains(region) || owns_selected(
                        &before,
                        parts@.take(i as int),
                        region,
                    ),
                forall|k: int, region: RegionId|
                    #![trigger parts@[k], self.frames.region_frames@[region]]
                    0 <= k < i && before.region_owning(parts@[k]) == Some(region)
                        ==> self.frames.region_frames@[region] == before.grid_after(
                        parts@,
                        parts@[k],
                    ),
                forall|region: RegionId| #[trigger]
                    self.frames.region_frames@.dom().contains(region) && !owns_selected(
                        &before,
                        parts@.take(i as int),
                        region,
                    ) ==> self.frames.region_frames@[region] == before.frames.region_frames@[region],
            decreases parts@.len() - i,
        {
            let part: PartId = parts.item(i);
            let target: ConstructionFrameId = targets[i];
            let ghost earlier = *self;
            proof {
                assert(before.has_part(part));
                lemma_target_exists(&before, parts@, i as int);
                let at = before.frames.frames.keys@.index_of(before.frame_of_part(part)->0);
                let offset = before.grids_used(parts@, at);
                assert(middle.frames.frames.keys@[before.frames.frames.keys@.len() + offset]
                    == target);
                assert(self.frames.frames@.dom().contains(target));
                lemma_take_next(parts@, i as int);
            }
            if let Some(region) = self.region_of(part) {
                self.frames.region_frames.insert(region, target);
            }
            self.frames.members.insert(part, target);
            proof {
                let shorter = parts@.take(i as int);
                let longer = parts@.take(i + 1);
                assert forall|region: RegionId| #[trigger] owns_selected(&before, longer, region)
                    <==> owns_selected(&before, shorter, region) || before.region_owning(part)
                    == Some(region) by {
                    lemma_owns_next(&before, parts@, i as int, region);
                }
                assert forall|k: int, region: RegionId|
                    #![trigger parts@[k], self.frames.region_frames@[region]]
                    0 <= k < i + 1 && before.region_owning(parts@[k]) == Some(region) implies self.frames.region_frames@[region]
                    == before.grid_after(parts@, parts@[k]) by {
                    assert(before.has_part(parts@[k]));
                    if before.region_owning(part) == Some(region) {
                        assert(before.frame_of_part(parts@[k]) == before.frame_of_part(part));
                    } else {
                        assert(earlier.frames.region_frames@[region] == before.grid_after(
                            parts@,
                            parts@[k],
                        ));
                    }
                }
            }
            i += 1;
        }
        proof {
            assert(parts@.take(i as int) =~= parts@);
            assert forall|region: RegionId, part: PartId|
                #![trigger self.frames.region_frames@[region], parts@.contains(part)]
                parts@.contains(part) && before.region_owning(part) == Some(region) implies self.frames.region_frames@[region]
                == before.grid_after(parts@, part) by {
                let k = parts@.index_of(part);
                assert(parts@[k] == part);
            }
            lemma_regions_move_whole(&before, self, parts@, composed@, motions@);
        }
        Ok(())
    }
}

/// A selected part's new grid is one of the added ones.
proof fn lemma_target_exists(graph: &ConstructionGraph, parts: Seq<PartId>, i: int)
    requires
        graph.wf(),
        0 <= i < parts.len(),
        graph.has_part(parts[i]),
    ensures
        ({
            let frame = graph.frame_of_part(parts[i])->0;
            let at = graph.frames.frames.keys@.index_of(frame);
            let grids = graph.frames.frames.keys@.len() as int;
            &&& 0 <= at < grids
            &&& graph.frames.frames.keys@[at] == frame
            &&& 0 <= graph.grids_used(parts, at) < graph.grids_used(parts, grids)
        }),
{
    let frame = graph.frame_of_part(parts[i])->0;
    if graph.frames.members@.dom().contains(parts[i]) {
        assert(graph.frames.frames@.dom().contains(graph.frames.members@[parts[i]]));
    }
    assert(graph.frames.frames.keys@.contains(frame));
    let at = graph.frames.frames.keys@.index_of(frame);
    assert(graph.frames.frames.keys@[at] == frame);
    assert(graph.frame_of_part(parts[i]) == Some(graph.frames.frames.keys@[at]));
    assert(graph.grid_used(parts, at));
    lemma_grids_used(graph, parts, at, graph.frames.frames.keys@.len() as int);
}

/// One more selected part may bring one more region.
proof fn lemma_owns_next(
    graph: &ConstructionGraph,
    parts: Seq<PartId>,
    i: int,
    region: RegionId,
)
    requires
        0 <= i < parts.len(),
    ensures
        owns_selected(graph, parts.take(i + 1), region) <==> owns_selected(
            graph,
            parts.take(i),
            region,
        ) || graph.region_owning(parts[i]) == Some(region),
{
    let shorter = parts.take(i);
    let longer = parts.take(i + 1);
    if owns_selected(graph, longer, region) {
        let k = choose|k: int|
            0 <= k < longer.len() && graph.region_owning(#[trigger] longer[k]) == Some(region);
        if k < i {
            assert(shorter[k] == longer[k]);
        }
    }
    if owns_selected(graph, shorter, region) {
        let k = choose|k: int|
            0 <= k < shorter.len() && graph.region_owning(#[trigger] shorter[k]) == Some(region);
        assert(longer[k] == shorter[k]);
    }
    assert(longer[i] == parts[i]);
}

/// Parts that a region holds stay on one grid where none of them changes grids.
pub proof fn regions_stay_undivided(before: &ConstructionGraph, after: &ConstructionGraph)
    requires
        before.regions_undivided(),
        after.parts == before.parts,
        after.region_members == before.region_members,
        forall|part: PartId|
            #![trigger after.frame_of_part(part)]
            before.region_owning(part) is Some ==> after.frame_of_part(part)
                == before.frame_of_part(part),
    ensures
        after.regions_undivided(),
{
    assert forall|a: PartId, b: PartId|
        #![trigger after.region_owning(a), after.region_owning(b)]
        after.has_part(a) && after.has_part(b) && after.region_owning(a) is Some
            && after.region_owning(a) == after.region_owning(b) implies after.frame_of_part(a)
        == after.frame_of_part(b) by {
        assert(before.region_owning(a) == before.region_owning(b));
    }
}

/// Nothing refuses any part of a selection that nothing refuses.
proof fn lemma_no_part_fault(graph: &ConstructionGraph, parts: Seq<PartId>, count: int, i: int)
    requires
        0 <= i < count <= parts.len(),
        graph.first_part_fault(parts, count) is None,
    ensures
        graph.part_fault(parts, parts[i]) is None,
    decreases count,
{
    if i < count - 1 {
        lemma_no_part_fault(graph, parts, count - 1, i);
    }
}

/// Reframing takes regions as a whole.
proof fn lemma_regions_move_whole(
    before: &ConstructionGraph,
    after: &ConstructionGraph,
    parts: Seq<PartId>,
    composed: Seq<ConstructionFrame>,
    motions: Seq<BearingMotion>,
)
    requires
        before.regions_undivided(),
        before.first_part_fault(parts, parts.len() as int) is None,
        after.parts == before.parts,
        after.region_members == before.region_members,
        after.reframed(before, parts, composed, motions),
    ensures
        after.regions_undivided(),
{
    assert forall|a: PartId, b: PartId|
        #![trigger after.region_owning(a), after.region_owning(b)]
        after.has_part(a) && after.has_part(b) && after.region_owning(a) is Some
            && after.region_owning(a) == after.region_owning(b) implies after.frame_of_part(a)
        == after.frame_of_part(b) by {
        assert(before.region_owning(a) == before.region_owning(b));
        if parts.contains(a) {
            let i = parts.index_of(a);
            lemma_no_part_fault(before, parts, parts.len() as int, i);
            assert(parts.contains(b));
        }
        if parts.contains(b) {
            let i = parts.index_of(b);
            lemma_no_part_fault(before, parts, parts.len() as int, i);
            assert(parts.contains(a));
        }
        assert(after.frames.members@.dom().contains(a)
            == (before.frames.members@.dom().contains(a) || parts.contains(a)));
        assert(after.frames.members@.dom().contains(b)
            == (before.frames.members@.dom().contains(b) || parts.contains(b)));
    }
}

/// The transform that takes the place of a grid in use is the composed one.
proof fn lemma_new_transform(
    graph: &ConstructionGraph,
    parts: Seq<PartId>,
    composed: Seq<ConstructionFrame>,
    at: int,
    count: int,
)
    requires
        0 <= at < count,
        graph.grid_used(parts, at),
    ensures
        0 <= graph.grids_used(parts, at) < graph.grids_used(parts, count),
        graph.new_transforms(parts, composed, count).len() == graph.grids_used(parts, count),
        graph.new_transforms(parts, composed, count)[graph.grids_used(parts, at)] == composed[at],
    decreases count,
{
    lemma_transform_count(graph, parts, composed, at);
    lemma_transform_count(graph, parts, composed, count);
    if at < count - 1 {
        lemma_new_transform(graph, parts, composed, at, count - 1);
    }
}

/// There are as many new transforms as grids in use.
proof fn lemma_transform_count(
    graph: &ConstructionGraph,
    parts: Seq<PartId>,
    composed: Seq<ConstructionFrame>,
    count: int,
)
    ensures
        graph.new_transforms(parts, composed, count).len() == graph.grids_used(parts, count),
        0 <= graph.grids_used(parts, count),
    decreases count,
{
    if count > 0 {
        lemma_transform_count(graph, parts, composed, count - 1);
    }
}

/// Reframing puts a selected part on a new grid, the motion composed onto the
/// one it stood on, and leaves every other part and grid where it was. Two
/// selected parts share a grid afterwards exactly when they did before.
pub proof fn reframed_parts_stand_on_the_moved_grid(
    before: &ConstructionGraph,
    after: &ConstructionGraph,
    parts: Seq<PartId>,
    composed: Seq<ConstructionFrame>,
    motions: Seq<BearingMotion>,
    part: PartId,
)
    requires
        before.wf(),
        after.wf(),
        before.reframe_fault(parts) is None,
        after.reframed(before, parts, composed, motions),
        after.parts == before.parts,
        composed.len() == before.frames.frames.keys@.len(),
        before.has_part(part),
    ensures
        parts.contains(part) ==> {
            let grid = before.frame_of_part(part)->0;
            let at = before.frames.frames.keys@.index_of(grid);
            &&& 0 <= at < composed.len() && before.frames.frames.keys@[at] == grid
            &&& after.transform_of(after.frame_of_part(part)) == Some(composed[at])
            &&& !before.frames.frames@.dom().contains(after.frame_of_part(part)->0)
            &&& after.frame_of_part(part)->0 == before.new_grid(parts, at)
        },
        !parts.contains(part) ==> {
            &&& after.frame_of_part(part) == before.frame_of_part(part)
            &&& after.transform_of(after.frame_of_part(part)) == before.transform_of(
                before.frame_of_part(part),
            )
        },
{
    let keys = before.frames.frames.keys@;
    let grid = before.frame_of_part(part)->0;
    assert(after.frames.members@.dom().contains(part) <==> before.frames.members@.dom().contains(
        part,
    ) || parts.contains(part));
    if before.frames.members@.dom().contains(part) {
        assert(before.frames.frames@.dom().contains(before.frames.members@[part]));
    }
    assert(keys.contains(grid));
    let at = keys.index_of(grid);
    assert(keys[at] == grid);
    before.frames.frames.lemma_index(at);
    after.frames.frames.lemma_index(at);
    assert(after.frames.frames.keys@[at] == grid);
    if parts.contains(part) {
        let i = parts.index_of(part);
        assert(parts[i] == part);
        assert(before.grid_used(parts, at));
        lemma_new_transform(before, parts, composed, at, keys.len() as int);
        let place = keys.len() + before.grids_used(parts, at);
        after.frames.frames.lemma_index(place);
        assert(after.frames.frames.keys@[place] == before.new_grid(parts, at));
        assert(after.frames.members@[part] == before.grid_after(parts, part));
        if before.frames.frames@.dom().contains(before.new_grid(parts, at)) {
            assert(before.new_grid(parts, at).0 < before.frames.next_id);
        }
    }
}

/// Parts on two grids go to two new grids.
pub proof fn new_grids_are_as_many_as_the_old(
    graph: &ConstructionGraph,
    parts: Seq<PartId>,
    a: int,
    b: int,
)
    requires
        0 <= a < b < graph.frames.frames.keys@.len(),
        graph.grid_used(parts, a),
        graph.reframe_fault(parts) is None,
    ensures
        graph.new_grid(parts, a).0 < graph.new_grid(parts, b).0,
{
    lemma_grids_used(graph, parts, a, b);
    lemma_grids_used(graph, parts, b, graph.frames.frames.keys@.len() as int);
    lemma_transform_count(graph, parts, Seq::empty(), a);
    lemma_transform_count(graph, parts, Seq::empty(), b);
}

/// Reframing moves the joints of the selection as the motion says, each on the
/// faces it was on, and leaves the others alone; regions go where their parts go.
pub proof fn reframed_joints_and_regions_go_with_their_parts(
    before: &ConstructionGraph,
    after: &ConstructionGraph,
    parts: Seq<PartId>,
    composed: Seq<ConstructionFrame>,
    motions: Seq<BearingMotion>,
    i: int,
    part: PartId,
    region: RegionId,
)
    requires
        before.wf(),
        after.reframed(before, parts, composed, motions),
        after.parts == before.parts,
        after.region_members == before.region_members,
    ensures
        0 <= i < before.bearings.rows.values@.len() ==> {
            let was = before.bearings.rows.values@[i];
            let now = after.bearings.rows.values@[i];
            let chosen = was.source.owner matches FaceOwner::Part(owner) && parts.contains(owner);
            &&& now.source == was.source && now.target == was.target
            &&& chosen ==> now.shared_anchor == motions[i].anchor && now.axis == motions[i].axis
                && now.kind == motions[i].kind
            &&& !chosen ==> now == was
        },
        parts.contains(part) && before.has_part(part) && before.region_owning(part) == Some(region)
            ==> after.frames.region_frames@.dom().contains(region)
            && Some(after.frames.region_frames@[region]) == after.frame_of_part(part),
        (forall|other: PartId| #[trigger]
            parts.contains(other) ==> before.region_owning(other) != Some(region))
            && before.frames.region_frames@.dom().contains(region)
            ==> after.frames.region_frames@.dom().contains(region)
            && after.frames.region_frames@[region] == before.frames.region_frames@[region],
{
    if 0 <= i < before.bearings.rows.values@.len() {
        assert(after.bearings.rows.values@.len() == before.bearings.rows.values@.len());
        let now = after.bearings.rows.values@[i];
    }
    if parts.contains(part) && before.has_part(part) && before.region_owning(part) == Some(region) {
        let at = parts.index_of(part);
        assert(parts[at] == part);
        assert(owns_selected(before, parts, region));
        assert(after.frames.region_frames@.dom().contains(region));
        assert(after.frames.region_frames@[region] == before.grid_after(parts, part));
        assert(after.frames.members@.dom().contains(part));
        assert(after.frames.members@[part] == before.grid_after(parts, part));
    }
    if (forall|other: PartId| #[trigger]
        parts.contains(other) ==> before.region_owning(other) != Some(region)) {
        assert(!owns_selected(before, parts, region)) by {
            if owns_selected(before, parts, region) {
                let at = choose|at: int|
                    0 <= at < parts.len() && before.region_owning(#[trigger] parts[at]) == Some(
                        region,
                    );
                assert(parts.contains(parts[at]));
            }
        }
        if before.frames.region_frames@.dom().contains(region) {
            assert(after.frames.region_frames@.dom().contains(region));
        }
    }
}

/// The first joint that a selection splits has one side in it and one outside.
proof fn lemma_split(graph: &ConstructionGraph, parts: Seq<PartId>, count: int)
    requires
        0 <= count <= graph.bearings.rows.values@.len(),
        graph.bearings.rows.values@.len() == graph.bearings.rows.keys@.len(),
    ensures
        graph.first_split_bearing(parts, count) is None <==> forall|i: int|
            #![trigger graph.bearings.rows.values@[i]]
            0 <= i < count ==> selected(parts, graph.bearings.rows.values@[i].source.owner)
                == target_selected(parts, graph.bearings.rows.values@[i]),
        graph.first_split_bearing(parts, count) matches Some(id) ==> exists|i: int|
            #![trigger graph.bearings.rows.values@[i]]
            0 <= i < count && graph.bearings.rows.keys@[i] == id && selected(
                parts,
                graph.bearings.rows.values@[i].source.owner,
            ) != target_selected(parts, graph.bearings.rows.values@[i]),
    decreases count,
{
    if count > 0 {
        lemma_split(graph, parts, count - 1);
        let last = graph.bearings.rows.values@[count - 1];
        assert(graph.bearings.rows.values@[count - 1] == last);
    }
}

/// Every selected part that may move moves.
proof fn lemma_part_faults(graph: &ConstructionGraph, parts: Seq<PartId>, count: int)
    requires
        0 <= count <= parts.len(),
    ensures
        graph.first_part_fault(parts, count) is None <==> forall|i: int|
            #![trigger parts[i]]
            0 <= i < count ==> graph.part_fault(parts, parts[i]) is None,
        graph.first_part_fault(parts, count) is Some ==> exists|i: int|
            #![trigger parts[i]]
            0 <= i < count && graph.part_fault(parts, parts[i]) == graph.first_part_fault(
                parts,
                count,
            ),
    decreases count,
{
    if count > 0 {
        lemma_part_faults(graph, parts, count - 1);
        let last = parts[count - 1];
        if graph.first_part_fault(parts, count - 1) is Some {
            let i = choose|i: int|
                #![trigger parts[i]]
                0 <= i < count - 1 && graph.part_fault(parts, parts[i])
                    == graph.first_part_fault(parts, count - 1);
            assert(graph.part_fault(parts, parts[i]) == graph.first_part_fault(parts, count));
        }
    }
}

/// A selection is refused for a part that is not there, for a region of which
/// it would leave a part behind, for a joint of which it holds one side, or for
/// want of identities; the error names what it is refused for, and a selection
/// without any of these is taken.
pub proof fn selections_are_taken_whole(graph: &ConstructionGraph, parts: Seq<PartId>)
    requires
        graph.wf(),
    ensures
        graph.reframe_fault(parts) is None ==> {
            &&& forall|i: int|
                #![trigger parts[i]]
                0 <= i < parts.len() ==> graph.has_part(parts[i])
            &&& forall|a: PartId, b: PartId|
                #![trigger graph.region_owning(a), graph.region_owning(b)]
                parts.contains(a) && graph.has_part(b) && graph.region_owning(a) is Some
                    && graph.region_owning(b) == graph.region_owning(a) ==> parts.contains(b)
            &&& forall|i: int|
                #![trigger graph.bearings.rows.values@[i]]
                0 <= i < graph.bearings.rows.values@.len() ==> (selected(
                    parts,
                    graph.bearings.rows.values@[i].source.owner,
                ) <==> target_selected(parts, graph.bearings.rows.values@[i]))
        },
        graph.reframe_fault(parts) matches Some(error) ==> match error {
            FrameError::MissingPart(part) => parts.contains(part) && !graph.has_part(part),
            FrameError::PartialRegion(region) => exists|a: PartId, b: PartId|
                #![trigger graph.region_owning(a), graph.region_owning(b)]
                parts.contains(a) && graph.region_owning(a) == Some(region) && graph.has_part(b)
                    && graph.region_owning(b) == Some(region) && !parts.contains(b),
            FrameError::PartialBearing(id) => exists|i: int|
                #![trigger graph.bearings.rows.values@[i]]
                0 <= i < graph.bearings.rows.values@.len() && graph.bearings.rows.keys@[i] == id
                    && selected(parts, graph.bearings.rows.values@[i].source.owner)
                    != target_selected(parts, graph.bearings.rows.values@[i]),
            FrameError::Exhausted => graph.frames.next_id + graph.frames.frames.keys@.len()
                > u64::MAX,
            _ => false,
        },
{
    let n = parts.len() as int;
    let m = graph.bearings.rows.keys@.len() as int;
    lemma_part_faults(graph, parts, n);
    lemma_split(graph, parts, m);
    lemma_grids_used(graph, parts, 0, graph.frames.frames.keys@.len() as int);
    if graph.reframe_fault(parts) is None {
        assert forall|i: int| #![trigger parts[i]] 0 <= i < parts.len() implies graph.has_part(
            parts[i],
        ) by {
            assert(graph.part_fault(parts, parts[i]) is None);
        }
        assert forall|a: PartId, b: PartId|
            #![trigger graph.region_owning(a), graph.region_owning(b)]
            parts.contains(a) && graph.has_part(b) && graph.region_owning(a) is Some
                && graph.region_owning(b) == graph.region_owning(a) implies parts.contains(b) by {
            let i = parts.index_of(a);
            assert(parts[i] == a);
            assert(graph.part_fault(parts, parts[i]) is None);
            assert(!graph.left_behind(parts, graph.region_owning(a)->0));
        }
    } else if graph.first_part_fault(parts, n) is Some {
        let i = choose|i: int|
            #![trigger parts[i]]
            0 <= i < n && graph.part_fault(parts, parts[i]) == graph.first_part_fault(parts, n);
        assert(parts.contains(parts[i]));
        if graph.has_part(parts[i]) {
            let region = graph.region_owning(parts[i])->0;
            let other = choose|other: PartId| #[trigger]
                graph.region_owning(other) == Some(region) && graph.has_part(other)
                    && !parts.contains(other);
            assert(graph.region_owning(parts[i]) == Some(region));
            assert(graph.region_owning(other) == Some(region));
        }
    }
}

/// The first part with a fault is the one that is told.
proof fn lemma_first_part_fault(graph: &ConstructionGraph, parts: Seq<PartId>, count: int, i: int)
    requires
        0 <= i < count <= parts.len(),
        graph.part_fault(parts, parts[i]) is Some,
        forall|j: int| #![trigger parts[j]] 0 <= j < i ==> graph.part_fault(parts, parts[j]) is None,
    ensures
        graph.first_part_fault(parts, count) == graph.part_fault(parts, parts[i]),
    decreases count,
{
    if i < count - 1 {
        lemma_first_part_fault(graph, parts, count - 1, i);
    } else {
        lemma_parts_faultless(graph, parts, i);
    }
}

/// Parts without a fault have no first one.
proof fn lemma_parts_faultless(graph: &ConstructionGraph, parts: Seq<PartId>, count: int)
    requires
        0 <= count <= parts.len(),
        forall|j: int|
            #![trigger parts[j]]
            0 <= j < count ==> graph.part_fault(parts, parts[j]) is None,
    ensures
        graph.first_part_fault(parts, count) is None,
    decreases count,
{
    if count > 0 {
        lemma_parts_faultless(graph, parts, count - 1);
        let last = parts[count - 1];
    }
}

/// The first joint that a selection splits is the one that is told.
proof fn lemma_first_split(graph: &ConstructionGraph, parts: Seq<PartId>, count: int, i: int)
    requires
        0 <= i < count,
        selected(parts, graph.bearings.rows.values@[i].source.owner) != target_selected(
            parts,
            graph.bearings.rows.values@[i],
        ),
        forall|j: int|
            #![trigger graph.bearings.rows.values@[j]]
            0 <= j < i ==> selected(parts, graph.bearings.rows.values@[j].source.owner)
                == target_selected(parts, graph.bearings.rows.values@[j]),
    ensures
        graph.first_split_bearing(parts, count) == Some(graph.bearings.rows.keys@[i]),
    decreases count,
{
    if i < count - 1 {
        lemma_first_split(graph, parts, count - 1, i);
    } else {
        lemma_none_split(graph, parts, i);
    }
}

/// Joints that are not split have no first one.
proof fn lemma_none_split(graph: &ConstructionGraph, parts: Seq<PartId>, count: int)
    requires
        forall|j: int|
            #![trigger graph.bearings.rows.values@[j]]
            0 <= j < count ==> selected(parts, graph.bearings.rows.values@[j].source.owner)
                == target_selected(parts, graph.bearings.rows.values@[j]),
    ensures
        graph.first_split_bearing(parts, count) is None,
    decreases count,
{
    if count > 0 {
        lemma_none_split(graph, parts, count - 1);
        let last = graph.bearings.rows.values@[count - 1];
    }
}

/// A selection is refused for its first part that is not there or whose region
/// it leaves behind in part, and only then for the first joint that it splits.
pub proof fn selections_are_refused_in_order(graph: &ConstructionGraph, parts: Seq<PartId>, i: int)
    ensures
        0 <= i < parts.len() && !graph.has_part(parts[i]) && (forall|j: int|
            #![trigger parts[j]]
            0 <= j < i ==> graph.has_part(parts[j]) && graph.region_owning(parts[j]) is None)
            ==> graph.reframe_fault(parts) == Some(FrameError::MissingPart(parts[i])),
        0 <= i < graph.bearings.rows.keys@.len() && selected(
            parts,
            graph.bearings.rows.values@[i].source.owner,
        ) != target_selected(parts, graph.bearings.rows.values@[i]) && (forall|j: int|
            #![trigger graph.bearings.rows.values@[j]]
            0 <= j < i ==> selected(parts, graph.bearings.rows.values@[j].source.owner)
                == target_selected(parts, graph.bearings.rows.values@[j])) && (forall|j: int|
            #![trigger parts[j]]
            0 <= j < parts.len() ==> graph.has_part(parts[j]) && graph.region_owning(parts[j])
                is None) ==> graph.reframe_fault(parts) == Some(
            FrameError::PartialBearing(graph.bearings.rows.keys@[i]),
        ),
{
    let n = parts.len() as int;
    if 0 <= i < n && !graph.has_part(parts[i]) && forall|j: int|
        #![trigger parts[j]]
        0 <= j < i ==> graph.has_part(parts[j]) && graph.region_owning(parts[j]) is None {
        lemma_first_part_fault(graph, parts, n, i);
    }
    if 0 <= i < graph.bearings.rows.keys@.len() && selected(
        parts,
        graph.bearings.rows.values@[i].source.owner,
    ) != target_selected(parts, graph.bearings.rows.values@[i]) && (forall|j: int|
        #![trigger graph.bearings.rows.values@[j]]
        0 <= j < i ==> selected(parts, graph.bearings.rows.values@[j].source.owner)
            == target_selected(parts, graph.bearings.rows.values@[j])) && (forall|j: int|
        #![trigger parts[j]]
        0 <= j < n ==> graph.has_part(parts[j]) && graph.region_owning(parts[j]) is None) {
        lemma_parts_faultless(graph, parts, n);
        lemma_first_split(graph, parts, graph.bearings.rows.keys@.len() as int, i);
    }
}

} // verus!
