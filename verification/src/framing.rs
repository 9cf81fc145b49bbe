//! Grids of a construction: membership, edit views and reframing.

use vstd::prelude::*;

use crate::frame::{
    ancestor, ends, lemma_ancestry_stays_ended, lemma_origin_keeps_ends, ConstructionFrame, ConstructionFrameId,
    ConstructionFrames, FrameError,
};
use crate::graph::ConstructionGraph;
use crate::ids::{PartId, RegionId};
use crate::parts::{BearingSpec, FaceOwner, FaceRef, JointKind, SolidOwner};
use crate::reframe::regions_stay_undivided;
use crate::scalar::{Scalar, Triple};
use crate::exact::{numbers_compare_as_their_values, signs_are_those_of_values, units_of_one};

verus! {

impl ConstructionGraph {
    /// The grid of a live part: its own, or the default one.
    pub open spec fn frame_of_part(&self, part: PartId) -> Option<ConstructionFrameId> {
        if !self.has_part(part) {
            None
        } else if self.frames.members@.dom().contains(part) {
            Some(self.frames.members@[part])
        } else {
            Some(ConstructionFrameId(0))
        }
    }

    /// The grid of a live region.
    pub open spec fn frame_of_region(&self, region: RegionId) -> Option<ConstructionFrameId> {
        if self.regions.rows@.dom().contains(region)
            && self.frames.region_frames@.dom().contains(region) {
            Some(self.frames.region_frames@[region])
        } else {
            None
        }
    }

    /// The transform of a grid, if the graph has it.
    pub open spec fn transform_of(&self, frame: Option<ConstructionFrameId>) -> Option<
        ConstructionFrame,
    > {
        match frame {
            Some(id) => if self.frames.frames@.dom().contains(id) {
                Some(self.frames.frames@[id])
            } else {
                None
            },
            None => None,
        }
    }

    /// Transform of a grid, if the graph has it.
    fn frame_transform(&self, frame: Option<ConstructionFrameId>) -> (transform: Option<
        ConstructionFrame,
    >)
        requires
            self.wf(),
        ensures
            transform == self.transform_of(frame),
    {
        match frame {
            Some(id) => match self.frames.frames.get(id) {
                Some(transform) => Some(*transform),
                None => None,
            },
            None => None,
        }
    }

    /// Maps coordinates of this view back into canonical build space.
    pub fn view_to_build(&self) -> (transform: ConstructionFrame)
        ensures
            transform == self.frames.view_to_build,
    {
        self.frames.view_to_build
    }

    /// Grid inherited by newly spawned parts and newly claimed shape regions.
    pub fn edit_frame_id(&self) -> (frame: ConstructionFrameId)
        ensures
            frame == self.frames.editing_frame,
    {
        self.frames.editing_frame
    }

    /// Rigid transform of the active authoring grid.
    pub fn edit_frame(&self) -> (transform: ConstructionFrame)
        requires
            self.wf(),
        ensures
            transform == self.frames.frames@[self.frames.editing_frame],
    {
        match self.frames.frames.index_of(self.frames.editing_frame) {
            Some(at) => self.frames.frames.values[at],
            None => ConstructionFrame::identity(),
        }
    }

    /// Selects the grid used by subsequent local construction commands.
    pub fn set_edit_frame(&mut self, frame: ConstructionFrameId) -> (done: Result<(), FrameError>)
        requires
            old(self).wf(),
        ensures
            final(self).wf(),
            old(self).regions_undivided() ==> final(self).regions_undivided(),
            done == (if old(self).frames.frames@.dom().contains(frame) {
                Ok::<(), FrameError>(())
            } else {
                Err(FrameError::MissingFrame(frame))
            }),
            done is Err ==> *final(self) == *old(self),
            done is Ok ==> *final(self) == (ConstructionGraph {
                frames: ConstructionFrames { editing_frame: frame, ..old(self).frames },
                ..*old(self)
            }),
    {
        if !self.frames.frames.contains_key(frame) {
            return Err(FrameError::MissingFrame(frame));
        }
        self.frames.editing_frame = frame;
        proof {
            if old(self).regions_undivided() {
                regions_stay_undivided(old(self), self);
            }
        }
        Ok(())
    }

    /// Explicit authored-grid membership of a live shape region.
    pub fn region_frame_id(&self, region: RegionId) -> (frame: Option<ConstructionFrameId>)
        requires
            self.wf(),
        ensures
            frame == self.frame_of_region(region),
    {
        if self.regions.get(region).is_none() {
            return None;
        }
        match self.frames.region_frames.get(region) {
            Some(frame) => Some(*frame),
            None => None,
        }
    }

    /// Rigid transform of a live shape region's local grid.
    pub fn region_frame(&self, region: RegionId) -> (transform: Option<ConstructionFrame>)
        requires
            self.wf(),
        ensures
            transform == self.transform_of(self.frame_of_region(region)),
    {
        self.frame_transform(self.region_frame_id(region))
    }

    /// Stable frame membership; newly authored parts use the default grid.
    pub fn part_frame_id(&self, part: PartId) -> (frame: Option<ConstructionFrameId>)
        requires
            self.wf(),
        ensures
            frame == self.frame_of_part(part),
    {
        if self.part(part).is_none() {
            return None;
        }
        match self.frames.members.get(part) {
            Some(frame) => Some(*frame),
            None => Some(ConstructionFrameId(0)),
        }
    }

    /// Resolves the authored grid containing a part.
    pub fn part_frame(&self, part: PartId) -> (transform: Option<ConstructionFrame>)
        requires
            self.wf(),
        ensures
            transform == self.transform_of(self.frame_of_part(part)),
    {
        self.frame_transform(self.part_frame_id(part))
    }

    /// The grid of whatever owns a face; the ground stands on the default one.
    pub fn face_frame(&self, face: FaceRef) -> (transform: Option<ConstructionFrame>)
        requires
            self.wf(),
        ensures
            transform == (match face.owner {
                FaceOwner::Ground => Some(ConstructionFrame::identity()),
                FaceOwner::Part(part) => self.transform_of(self.frame_of_part(part)),
            }),
    {
        match face.owner {
            FaceOwner::Ground => Some(ConstructionFrame::identity()),
            FaceOwner::Part(part) => self.part_frame(part),
        }
    }

    /// The grid of a solid's owner, or the default one.
    pub fn owner_frame(&self, owner: SolidOwner) -> (transform: ConstructionFrame)
        requires
            self.wf(),
        ensures
            transform == (match self.transform_of(
                match owner {
                    SolidOwner::Part(part) => self.frame_of_part(part),
                    SolidOwner::Region(region) => self.frame_of_region(region),
                },
            ) {
                Some(transform) => transform,
                None => ConstructionFrame::identity(),
            }),
    {
        let frame: Option<ConstructionFrameId> = match owner {
            SolidOwner::Part(part) => self.part_frame_id(part),
            SolidOwner::Region(region) => self.region_frame_id(region),
        };
        match self.frame_transform(frame) {
            Some(transform) => transform,
            None => ConstructionFrame::identity(),
        }
    }

    /// Source identity retained for live publication of replacement geometry.
    pub fn edit_source(&self, part: PartId) -> (source: Option<PartId>)
        requires
            self.wf(),
        ensures
            source == ancestor(self.frames.origins@, part, 1),
    {
        proof {
            assert(ancestor(self.frames.origins@, part, 0) == Some(part));
        }
        match self.frames.origins.get(part) {
            Some(source) => Some(*source),
            None => None,
        }
    }

    /// Records the prior live part whose pose and velocity field a new part inherits.
    pub fn set_edit_source(&mut self, part: PartId, source: PartId) -> (done: Result<
        (),
        FrameError,
    >)
        requires
            old(self).wf(),
        ensures
            final(self).wf(),
            old(self).regions_undivided() ==> final(self).regions_undivided(),
            !old(self).has_part(part) ==> done == Err::<(), FrameError>(
                FrameError::MissingPart(part),
            ),
            old(self).has_part(part) ==> done == (if exists|steps: nat| #[trigger]
                ancestor(old(self).frames.origins@, source, steps) == Some(part) {
                Err::<(), FrameError>(FrameError::CyclicAncestry)
            } else {
                Ok(())
            }),
            done is Err ==> *final(self) == *old(self),
            done is Ok ==> final(self).frames.origins@ == old(self).frames.origins@.insert(
                part,
                source,
            ),
            *final(self) == (ConstructionGraph {
                frames: ConstructionFrames {
                    origins: final(self).frames.origins,
                    ..old(self).frames
                },
                ..*old(self)
            }),
    {
        if self.part(part).is_none() {
            return Err(FrameError::MissingPart(part));
        }
        let ghost origins = self.frames.origins@;
        let mut cursor: Option<PartId> = Some(source);
        let ghost mut steps: nat = 0;
        proof {
            assert(ends(origins, source));
        }
        let ghost last: nat = choose|n: nat| #[trigger] ancestor(origins, source, n) is None;
        while cursor.is_some()
            invariant
                self.wf(),
                *self == *old(self),
                self.has_part(part),
                origins == self.frames.origins@,
                ancestor(origins, source, last) is None,
                steps <= last,
                cursor == ancestor(origins, source, steps),
                forall|k: nat| k < steps ==> #[trigger] ancestor(origins, source, k) != Some(part),
            decreases last - steps,
        {
            let here: PartId = match cursor {
                Some(here) => here,
                None => {
                    return Ok(());
                },
            };
            if here == part {
                assert(ancestor(origins, source, steps) == Some(part));
                return Err(FrameError::CyclicAncestry);
            }
            cursor = self.edit_source(here);
            proof {
                assert(ancestor(origins, here, 0) == Some(here));
                assert(steps < last);
                steps = steps + 1;
            }
        }
        proof {
            assert forall|k: nat| #[trigger] ancestor(origins, source, k) != Some(part) by {
                if k >= steps {
                    lemma_ancestry_stays_ended(origins, source, steps, k);
                }
            }
            lemma_origin_keeps_ends(origins, part, source);
        }
        self.frames.origins.insert(part, source);
        proof {
            if old(self).regions_undivided() {
                regions_stay_undivided(old(self), self);
            }
        }
        Ok(())
    }

    /// Adds a graph-owned frame for later part assignment.
    pub fn add_construction_frame(&mut self, frame: ConstructionFrame) -> (added: Result<
        ConstructionFrameId,
        FrameError,
    >)
        requires
            old(self).wf(),
        ensures
            final(self).wf(),
            old(self).regions_undivided() ==> final(self).regions_undivided(),
            added == (if old(self).frames.next_id == u64::MAX {
                Err::<ConstructionFrameId, FrameError>(FrameError::Exhausted)
            } else {
                Ok(ConstructionFrameId(old(self).frames.next_id))
            }),
            added is Err ==> *final(self) == *old(self),
            added is Ok ==> {
                &&& !old(self).frames.frames@.dom().contains(added->Ok_0)
                &&& final(self).frames.frames@ == old(self).frames.frames@.insert(
                    added->Ok_0,
                    frame,
                )
                &&& final(self).frames.frames.keys@ == old(self).frames.frames.keys@.push(
                    added->Ok_0,
                )
                &&& final(self).frames.frames.values@ == old(self).frames.frames.values@.push(frame)
                &&& final(self).frames.next_id == old(self).frames.next_id + 1
            },
            *final(self) == (ConstructionGraph {
                frames: ConstructionFrames {
                    frames: final(self).frames.frames,
                    next_id: final(self).frames.next_id,
                    ..old(self).frames
                },
                ..*old(self)
            }),
    {
        if self.frames.next_id == u64::MAX {
            return Err(FrameError::Exhausted);
        }
        let id = ConstructionFrameId(self.frames.next_id);
        proof {
            let keys = self.frames.frames.keys@;
            assert(!self.frames.frames@.dom().contains(id));
            if keys.len() > 0 {
                assert(keys[keys.len() - 1] == keys.last());
                self.frames.frames.lemma_index(keys.len() - 1);
                assert(self.frames.frames@.dom().contains(keys.last()));
            } else {
                assert(self.frames.frames@.dom().contains(ConstructionFrameId(0)));
            }
        }
        self.frames.next_id = self.frames.next_id + 1;
        self.frames.frames.insert(id, frame);
        proof {
            if old(self).regions_undivided() {
                regions_stay_undivided(old(self), self);
            }
        }
        Ok(id)
    }

    /// Assigns a part to an existing authored frame.
    pub fn assign_part_frame(&mut self, part: PartId, frame: ConstructionFrameId) -> (done: Result<
        (),
        FrameError,
    >)
        requires
            old(self).wf(),
        ensures
            final(self).wf(),
            old(self).regions_undivided() ==> final(self).regions_undivided(),
            done == (if !old(self).has_part(part) {
                Err::<(), FrameError>(FrameError::MissingPart(part))
            } else if !old(self).frames.frames@.dom().contains(frame) {
                Err(FrameError::MissingFrame(frame))
            } else {
                match old(self).region_owning(part) {
                    Some(region) => Err(FrameError::PartialRegion(region)),
                    None => Ok(()),
                }
            }),
            done is Err ==> *final(self) == *old(self),
            done is Ok ==> final(self).frames.members@ == old(self).frames.members@.insert(
                part,
                frame,
            ),
            *final(self) == (ConstructionGraph {
                frames: ConstructionFrames {
                    members: final(self).frames.members,
                    ..old(self).frames
                },
                ..*old(self)
            }),
    {
        if self.part(part).is_none() {
            return Err(FrameError::MissingPart(part));
        }
        if !self.frames.frames.contains_key(frame) {
            return Err(FrameError::MissingFrame(frame));
        }
        if let Some(region) = self.region_of(part) {
            return Err(FrameError::PartialRegion(region));
        }
        self.frames.members.insert(part, frame);
        proof {
            if old(self).regions_undivided() {
                regions_stay_undivided(old(self), self);
            }
        }
        Ok(())
    }
}

/// Where a rigid motion takes a joint.
#[derive(Clone, Copy, Debug, PartialEq, Eq, Structural)]
pub struct BearingMotion {
    pub anchor: Triple,
    pub axis: Triple,
    pub kind: JointKind,
}

/// Where a rigid motion takes every grid and every joint, in row order, and
/// what then maps back into build space.
#[derive(Debug)]
pub struct MovedSpace {
    pub frames: Vec<ConstructionFrame>,
    pub bearings: Vec<BearingMotion>,
    pub view_to_build: ConstructionFrame,
}

/// A joint after a motion.
pub open spec fn moved_bearing(bearing: BearingSpec, motion: BearingMotion) -> BearingSpec {
    BearingSpec {
        shared_anchor: motion.anchor,
        axis: motion.axis,
        kind: motion.kind,
        ..bearing
    }
}

impl ConstructionGraph {
    /// Whether a motion covers every grid and every joint.
    pub open spec fn covered_by(&self, moved: &MovedSpace) -> bool {
        &&& moved.frames@.len() == self.frames.frames.keys@.len()
        &&& moved.bearings@.len() == self.bearings.rows.keys@.len()
    }

    /// Whether every joint went where the motion takes it.
    pub open spec fn bearings_moved(&self, before: &Self, moved: &MovedSpace) -> bool {
        &&& self.bearings.rows.keys@ == before.bearings.rows.keys@
        &&& self.bearings.ages == before.bearings.ages
        &&& self.bearings.vacant == before.bearings.vacant
        &&& self.bearings.rows.values@.len() == before.bearings.rows.values@.len()
        &&& forall|i: int|
            #![trigger self.bearings.rows.values@[i]]
            0 <= i < self.bearings.rows.values@.len() ==> self.bearings.rows.values@[i]
                == moved_bearing(before.bearings.rows.values@[i], moved.bearings@[i])
    }

    /// Whether this is a construction as a tool sees it from one of its grids:
    /// the same one where that grid is build space, else everything moved.
    pub open spec fn views(
        &self,
        before: &Self,
        frame: ConstructionFrameId,
        moved: &MovedSpace,
    ) -> bool {
        &&& self.frames.editing_frame == frame
        &&& before.frames.frames@[frame].same_value(ConstructionFrame::identity()) ==> *self == (
        ConstructionGraph {
            frames: ConstructionFrames { editing_frame: frame, ..before.frames },
            ..*before
        })
        &&& !before.frames.frames@[frame].same_value(ConstructionFrame::identity()) ==> {
            &&& self.frames.frames.keys@ == before.frames.frames.keys@
            &&& self.frames.frames.values@ == moved.frames@.update(
                before.frames.frames.keys@.index_of(frame),
                ConstructionFrame::identity(),
            )
            &&& self.bearings_moved(before, moved)
            &&& self.frames.view_to_build == (if frame.0 == 0 {
                ConstructionFrame::identity()
            } else {
                moved.view_to_build
            })
        }
        &&& self.differs_in_view(before)
    }

    /// Whether only joints, grids and the choice of view differ.
    pub open spec fn differs_in_view(&self, before: &Self) -> bool {
        *self == (ConstructionGraph {
            bearings: self.bearings,
            frames: ConstructionFrames {
                frames: self.frames.frames,
                view_to_build: self.frames.view_to_build,
                editing_frame: self.frames.editing_frame,
                ..before.frames
            },
            ..*before
        })
    }

    /// Whether this is a view brought back into build space, on the default grid.
    pub open spec fn brings_back(&self, before: &Self, moved: &MovedSpace) -> bool {
        let away = !before.frames.view_to_build.same_value(ConstructionFrame::identity());
        &&& self.frames.editing_frame == ConstructionFrameId(0)
        &&& !away && before.frames.editing_frame == ConstructionFrameId(0) ==> *self == *before
        &&& !away && before.frames.editing_frame != ConstructionFrameId(0) ==> *self == (
        ConstructionGraph {
            frames: ConstructionFrames {
                view_to_build: ConstructionFrame::identity(),
                editing_frame: ConstructionFrameId(0),
                ..before.frames
            },
            ..*before
        })
        &&& away ==> {
            &&& self.frames.view_to_build == ConstructionFrame::identity()
            &&& self.frames.frames.keys@ == before.frames.frames.keys@
            &&& self.frames.frames.values@ == moved.frames@.update(
                before.frames.frames.keys@.index_of(ConstructionFrameId(0)),
                ConstructionFrame::identity(),
            )
            &&& self.bearings_moved(before, moved)
        }
        &&& self.differs_in_view(before)
    }

    /// Moves every joint, and every grid but `basis`, which becomes the basis of the view.
    fn move_space(&mut self, moved: &MovedSpace, basis: ConstructionFrameId)
        requires
            old(self).wf(),
            old(self).covered_by(moved),
            old(self).frames.frames@.dom().contains(basis),
        ensures
            final(self).wf(),
            final(self).frames.frames.keys@ == old(self).frames.frames.keys@,
            final(self).frames.frames.values@ == moved.frames@.update(
                old(self).frames.frames.keys@.index_of(basis),
                ConstructionFrame::identity(),
            ),
            final(self).bearings_moved(old(self), moved),
            *final(self) == (ConstructionGraph {
                bearings: final(self).bearings,
                frames: ConstructionFrames {
                    frames: final(self).frames.frames,
                    ..old(self).frames
                },
                ..*old(self)
            }),
    {
        let ghost before = *self;
        let mut i: usize = 0;
        while i < self.bearings.rows.values.len()
            invariant
                i <= self.bearings.rows.values@.len(),
                before.covered_by(moved),
                before.wf(),
                self.bearings.rows.keys == before.bearings.rows.keys,
                self.bearings.ages == before.bearings.ages,
                self.bearings.vacant == before.bearings.vacant,
                self.bearings.rows.values@.len() == before.bearings.rows.values@.len(),
                *self == (ConstructionGraph { bearings: self.bearings, ..before }),
                forall|k: int|
                    #![trigger self.bearings.rows.values@[k]]
                    0 <= k < i ==> self.bearings.rows.values@[k] == moved_bearing(
                        before.bearings.rows.values@[k],
                        moved.bearings@[k],
                    ),
                forall|k: int|
                    #![trigger self.bearings.rows.values@[k]]
                    i <= k < self.bearings.rows.values@.len() ==> self.bearings.rows.values@[k]
                        == before.bearings.rows.values@[k],
            decreases self.bearings.rows.values@.len() - i,
        {
            let motion: BearingMotion = moved.bearings[i];
            let mut bearing: BearingSpec = self.bearings.rows.values[i];
            bearing.shared_anchor = motion.anchor;
            bearing.axis = motion.axis;
            bearing.kind = motion.kind;
            self.bearings.rows.values.set(i, bearing);
            i += 1;
        }
        let mut frames: Vec<ConstructionFrame> = Vec::new();
        let mut k: usize = 0;
        while k < moved.frames.len()
            invariant
                k <= moved.frames@.len(),
                frames@ =~= moved.frames@.take(k as int),
            decreases moved.frames@.len() - k,
        {
            frames.push(moved.frames[k]);
            k += 1;
        }
        assert(frames@ =~= moved.frames@);
        match self.frames.frames.index_of(basis) {
            Some(at) => {
                frames.set(at, ConstructionFrame::identity());
            },
            None => {},
        }
        self.frames.frames.values = frames;
        proof {
            let now = self.frames.frames;
            assert(now.keys == before.frames.frames.keys);
            assert forall|id: ConstructionFrameId| #[trigger] now@.dom().contains(id)
                <==> before.frames.frames@.dom().contains(id) by {}
            assert(self.frames.wf());
        }
    }

    /// Re-bases this construction on the selected local grid, as a tool sees it.
    ///
    /// `moved` holds what the inverse of that grid's transform makes of every
    /// grid and joint, and that transform composed onto the way back to build
    /// space. Part poses and frame identities remain unchanged.
    pub fn in_edit_frame(&mut self, frame: ConstructionFrameId, moved: &MovedSpace) -> (done: Result<
        (),
        FrameError,
    >)
        requires
            old(self).wf(),
            old(self).covered_by(moved),
        ensures
            final(self).wf(),
            old(self).regions_undivided() ==> final(self).regions_undivided(),
            done == (if old(self).frames.frames@.dom().contains(frame) {
                Ok::<(), FrameError>(())
            } else {
                Err(FrameError::MissingFrame(frame))
            }),
            done is Err ==> *final(self) == *old(self),
            done is Ok ==> final(self).views(old(self), frame, moved),
    {
        let selected: ConstructionFrame = match self.frames.frames.get(frame) {
            Some(selected) => *selected,
            None => {
                return Err(FrameError::MissingFrame(frame));
            },
        };
        if !selected.equal(ConstructionFrame::identity()) {
            self.move_space(moved, frame);
            self.frames.view_to_build = if frame.0 == 0 {
                ConstructionFrame::identity()
            } else {
                moved.view_to_build
            };
        }
        self.frames.editing_frame = frame;
        proof {
            if old(self).regions_undivided() {
                regions_stay_undivided(old(self), self);
            }
        }
        Ok(())
    }

    /// Brings this construction back into canonical build space, on the default grid.
    ///
    /// `moved` holds what the way back to build space makes of every grid and
    /// joint. A canonical construction on the default grid stays as it is.
    pub fn canonicalized(&mut self, moved: &MovedSpace)
        requires
            old(self).wf(),
            old(self).covered_by(moved),
        ensures
            final(self).wf(),
            old(self).regions_undivided() ==> final(self).regions_undivided(),
            final(self).brings_back(old(self), moved),
    {
        let away: bool = !self.frames.view_to_build.equal(ConstructionFrame::identity());
        if !away && self.frames.editing_frame.0 == 0 {
            return;
        }
        if away {
            self.move_space(moved, ConstructionFrameId(0));
        }
        self.frames.view_to_build = ConstructionFrame::identity();
        self.frames.editing_frame = ConstructionFrameId(0);
        proof {
            if old(self).regions_undivided() {
                regions_stay_undivided(old(self), self);
            }
        }
    }
}

/// A view brought back has the parts, the memberships and the settings of the
/// construction that it was a view of, in build space and on the default grid.
pub proof fn views_are_brought_back(
    graph: &ConstructionGraph,
    view: &ConstructionGraph,
    back: &ConstructionGraph,
    grid: ConstructionFrameId,
    there: &MovedSpace,
    home: &MovedSpace,
)
    requires
        graph.wf(),
        graph.frames.frames@.dom().contains(grid),
        graph.covered_by(there),
        view.covered_by(home),
        view.views(graph, grid, there),
        back.brings_back(view, home),
    ensures
        back.frames.editing_frame == ConstructionFrameId(0),
        back.frames.view_to_build.same_value(ConstructionFrame::identity()),
        back.frames.frames.keys@ == graph.frames.frames.keys@,
        back.bearings.rows.keys@ == graph.bearings.rows.keys@,
        *back == (ConstructionGraph {
            bearings: back.bearings,
            frames: ConstructionFrames {
                frames: back.frames.frames,
                view_to_build: back.frames.view_to_build,
                editing_frame: back.frames.editing_frame,
                ..graph.frames
            },
            ..*graph
        }),
        !view.frames.view_to_build.same_value(ConstructionFrame::identity())
            ==> back.frames.frames@[ConstructionFrameId(0)] == ConstructionFrame::identity(),
{
    let keys = graph.frames.frames.keys@;
    let basis = ConstructionFrameId(0);
    assert(graph.frames.frames@.dom().contains(basis));
    assert(keys.contains(basis));
    if !view.frames.view_to_build.same_value(ConstructionFrame::identity()) {
        assert(back.frames.frames.keys@ == keys);
        assert(back.frames.frames.values@[keys.index_of(basis)] == ConstructionFrame::identity());
    }
}

/// A construction brought back once stays as it is when brought back again.
pub proof fn bringing_back_twice_changes_nothing(
    view: &ConstructionGraph,
    once: &ConstructionGraph,
    twice: &ConstructionGraph,
    home: &MovedSpace,
    again: &MovedSpace,
)
    requires
        once.brings_back(view, home),
        twice.brings_back(once, again),
    ensures
        *twice == *once,
{
}

/// A construction seen from one of its grids has that grid as build space; every
/// other grid and every joint stands where the motion takes it, each joint on the
/// faces it was on. Seen from a grid that is build space already, nothing moves.
pub proof fn a_view_is_seen_from_its_grid(
    before: &ConstructionGraph,
    view: &ConstructionGraph,
    frame: ConstructionFrameId,
    moved: &MovedSpace,
    at: int,
)
    requires
        before.wf(),
        view.wf(),
        before.frames.frames@.dom().contains(frame),
        before.covered_by(moved),
        view.views(before, frame, moved),
    ensures
        view.frames.editing_frame == frame,
        view.frames.frames@[frame].same_value(ConstructionFrame::identity()),
        ({
            let rests = before.frames.frames@[frame].same_value(ConstructionFrame::identity());
            &&& 0 <= at < before.frames.frames.keys@.len() && before.frames.frames.keys@[at]
                != frame ==> view.frames.frames@[before.frames.frames.keys@[at]] == (if rests {
                before.frames.frames.values@[at]
            } else {
                moved.frames@[at]
            })
            &&& 0 <= at < before.bearings.rows.values@.len() ==> {
                let was = before.bearings.rows.values@[at];
                let now = view.bearings.rows.values@[at];
                &&& now.source == was.source && now.target == was.target
                &&& now.outer_diameter == was.outer_diameter && now.inner_diameter
                    == was.inner_diameter
                &&& rests ==> now == was
                &&& !rests ==> now.shared_anchor == moved.bearings@[at].anchor && now.axis
                    == moved.bearings@[at].axis && now.kind == moved.bearings@[at].kind
            }
            &&& rests ==> view.frames.view_to_build == before.frames.view_to_build
            &&& !rests && frame.0 != 0 ==> view.frames.view_to_build == moved.view_to_build
            &&& !rests && frame.0 == 0 ==> view.frames.view_to_build.same_value(
                ConstructionFrame::identity(),
            )
        }),
        view.parts == before.parts,
        view.frames.members == before.frames.members,
        view.frames.region_frames == before.frames.region_frames,
{
    let keys = before.frames.frames.keys@;
    let own = keys.index_of(frame);
    assert(keys.contains(frame));
    assert(keys[own] == frame);
    before.frames.frames.lemma_index(own);
    view.frames.frames.lemma_index(own);
    if 0 <= at < keys.len() {
        before.frames.frames.lemma_index(at);
        view.frames.frames.lemma_index(at);
    }
    if 0 <= at < before.bearings.rows.values@.len() {
        assert(view.bearings.rows.values@.len() == before.bearings.rows.values@.len());
        let now = view.bearings.rows.values@[at];
    }
}

/// A grid is the default one when its origin is build space's and its rotation
/// turns nothing.
pub proof fn the_default_grid_is_build_space(frame: ConstructionFrame)
    requires
        frame.translation.finite(),
        frame.rotation.x.finite() && frame.rotation.y.finite() && frame.rotation.z.finite(),
        frame.rotation.w.finite(),
    ensures
        frame.same_value(ConstructionFrame::identity()) <==> {
            &&& frame.translation.units() == (0int, 0int, 0int)
            &&& frame.rotation.x.units() == 0 && frame.rotation.y.units() == 0
                && frame.rotation.z.units() == 0
            &&& frame.rotation.w.units() == units_of_one()
        },
{
    signs_are_those_of_values(Scalar::zero());
    numbers_compare_as_their_values(frame.translation.x, Scalar::zero());
    numbers_compare_as_their_values(frame.translation.y, Scalar::zero());
    numbers_compare_as_their_values(frame.translation.z, Scalar::zero());
    numbers_compare_as_their_values(frame.rotation.x, Scalar::zero());
    numbers_compare_as_their_values(frame.rotation.y, Scalar::zero());
    numbers_compare_as_their_values(frame.rotation.z, Scalar::zero());
    numbers_compare_as_their_values(frame.rotation.w, Scalar::one());
}

/// A live part stands on the grid it was put on, or on the default one; what is
/// not there stands on none, and a grid's transform is the one it was given.
pub proof fn parts_stand_on_their_grid(graph: &ConstructionGraph, part: PartId)
    requires
        graph.wf(),
    ensures
        graph.frame_of_part(part) is Some <==> graph.parts.rows@.dom().contains(part),
        graph.parts.rows@.dom().contains(part) ==> {
            let grid = graph.frame_of_part(part)->0;
            &&& graph.frames.members@.dom().contains(part) ==> grid == graph.frames.members@[part]
            &&& !graph.frames.members@.dom().contains(part) ==> grid.0 == 0
            &&& graph.frames.frames@.dom().contains(grid)
            &&& graph.transform_of(Some(grid)) == Some(graph.frames.frames@[grid])
        },
{
}

/// A view that is brought back stands on the default grid as build space: seen
/// from elsewhere, every other grid and every joint goes where the motion takes
/// it; seen from build space, nothing moves.
pub proof fn what_is_brought_back_moves_home(
    view: &ConstructionGraph,
    back: &ConstructionGraph,
    home: &MovedSpace,
    at: int,
)
    requires
        view.wf(),
        view.covered_by(home),
        back.brings_back(view, home),
        0 <= at,
    ensures
        back.frames.editing_frame.0 == 0,
        ({
            let away = !view.frames.view_to_build.same_value(ConstructionFrame::identity());
            &&& !away ==> back.frames.frames.values@ == view.frames.frames.values@
                && back.bearings.rows.values@ == view.bearings.rows.values@
            &&& away && at < view.frames.frames.keys@.len() ==> back.frames.frames.values@[at]
                == (if view.frames.frames.keys@[at].0 == 0 {
                ConstructionFrame::identity()
            } else {
                home.frames@[at]
            })
            &&& away && at < view.bearings.rows.values@.len() ==> {
                let was = view.bearings.rows.values@[at];
                let now = back.bearings.rows.values@[at];
                &&& now.shared_anchor == home.bearings@[at].anchor && now.axis
                    == home.bearings@[at].axis && now.kind == home.bearings@[at].kind
                &&& now.source == was.source && now.target == was.target
            }
        }),
        back.parts == view.parts && back.welds == view.welds && back.regions == view.regions,
        back.frames.members == view.frames.members,
{
    let keys = view.frames.frames.keys@;
    assert(view.frames.frames@.dom().contains(ConstructionFrameId(0)));
    let own = keys.index_of(ConstructionFrameId(0));
    assert(keys[own] == ConstructionFrameId(0));
    if at < keys.len() {
        view.frames.frames.lemma_index(at);
        if keys[at].0 == 0 {
            assert(keys[at] == ConstructionFrameId(0));
            assert(own == at);
        }
    }
    if at < view.bearings.rows.values@.len() && at < back.bearings.rows.values@.len() {
        let now = back.bearings.rows.values@[at];
    }
}

/// A region stands on the grid recorded for it, as long as it is live.
pub proof fn regions_stand_on_their_grid(graph: &ConstructionGraph, region: RegionId)
    requires
        graph.wf(),
    ensures
        graph.frame_of_region(region) is Some ==> graph.regions.rows@.dom().contains(region)
            && graph.frames.region_frames@.contains_pair(region, graph.frame_of_region(region)->0)
            && graph.transform_of(graph.frame_of_region(region)) == Some(
            graph.frames.frames@[graph.frame_of_region(region)->0],
        ),
        graph.regions.rows@.dom().contains(region) && graph.frames.region_frames@.dom().contains(
            region,
        ) ==> graph.frame_of_region(region) is Some,
        !graph.regions.rows@.dom().contains(region) ==> graph.frame_of_region(region) is None,
{
}

} // verus!
