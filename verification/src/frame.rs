//! Rigid authored frames keep exact local grids independent of assembly orientation.

use vstd::prelude::*;

use crate::ids::{BearingId, PartId, RegionId};
use crate::ordered::{OrderedMap, Ranked};
use crate::scalar::{Scalar, Triple};
use crate::exact::{numbers_compare_as_their_values, signs_are_those_of_values, units_of_one};

verus! {

/// Stable identity of an authored construction frame.
#[derive(Clone, Copy, Debug, PartialEq, Eq, PartialOrd, Ord, Hash, Structural)]
pub struct ConstructionFrameId(pub u64);

impl Ranked for ConstructionFrameId {
    open spec fn rank(self) -> int {
        self.0 as int
    }

    proof fn rank_identifies(a: Self, b: Self) {
    }

    fn precedes(self, other: Self) -> (before: bool) {
        self.0 < other.0
    }
}

impl Default for ConstructionFrameId {
    /// The default build grid.
    fn default() -> (id: Self)
        ensures
            id == ConstructionFrameId(0),
    {
        ConstructionFrameId(0)
    }
}

/// Unit quaternion of a rotation.
#[derive(Clone, Copy, Debug, PartialEq, Eq, Hash, Structural)]
pub struct Rotation {
    pub x: Scalar,
    pub y: Scalar,
    pub z: Scalar,
    pub w: Scalar,
}

/// Rigid transform from a local construction grid into build space.
#[derive(Clone, Copy, Debug, PartialEq, Eq, Hash, Structural)]
pub struct ConstructionFrame {
    pub translation: Triple,
    pub rotation: Rotation,
}

impl ConstructionFrame {
    /// The default build grid.
    #[verifier::allow_in_spec]
    pub fn identity() -> Self
        returns
            (ConstructionFrame {
                translation: Triple {
                    x: Scalar { bits: 0 },
                    y: Scalar { bits: 0 },
                    z: Scalar { bits: 0 },
                },
                rotation: Rotation {
                    x: Scalar { bits: 0 },
                    y: Scalar { bits: 0 },
                    z: Scalar { bits: 0 },
                    w: Scalar { bits: 0x3F80_0000 },
                },
            }),
    {
        ConstructionFrame {
            translation: Triple { x: Scalar::zero(), y: Scalar::zero(), z: Scalar::zero() },
            rotation: Rotation {
                x: Scalar::zero(),
                y: Scalar::zero(),
                z: Scalar::zero(),
                w: Scalar::one(),
            },
        }
    }

    /// Whether all seven numbers agree in value.
    pub open spec fn same_value(self, other: Self) -> bool {
        &&& self.translation.same_value(other.translation)
        &&& self.rotation.x.same_value(other.rotation.x)
        &&& self.rotation.y.same_value(other.rotation.y)
        &&& self.rotation.z.same_value(other.rotation.z)
        &&& self.rotation.w.same_value(other.rotation.w)
    }

    /// Whether all seven numbers agree in value.
    pub fn equal(self, other: Self) -> (equal: bool)
        ensures
            equal == self.same_value(other),
    {
        self.translation.equal(other.translation) && self.rotation.x.equal(other.rotation.x)
            && self.rotation.y.equal(other.rotation.y) && self.rotation.z.equal(other.rotation.z)
            && self.rotation.w.equal(other.rotation.w)
    }
}

/// Invalid construction-frame mutation.
#[derive(Clone, Copy, Debug, PartialEq, Eq, Structural)]
pub enum FrameError {
    /// Transform data must describe a finite rigid transform.
    InvalidTransform,
    /// The supplied part no longer exists.
    MissingPart(PartId),
    /// The supplied frame no longer exists.
    MissingFrame(ConstructionFrameId),
    /// A shape region cannot straddle independently moving authored grids.
    PartialRegion(RegionId),
    /// Connected bearings must be reframed as a complete mechanism.
    PartialBearing(BearingId),
    /// A replacement cannot be its own ancestor.
    CyclicAncestry,
    /// Frame identities must not wrap or be reused.
    Exhausted,
}

/// Authored grids, who stands on them, and which part replaced which.
#[derive(Debug)]
pub struct ConstructionFrames {
    /// Every grid, the default one among them.
    pub frames: OrderedMap<ConstructionFrameId, ConstructionFrame>,
    /// The grid of each part that is not on the default one.
    pub members: OrderedMap<PartId, ConstructionFrameId>,
    /// The grid of each region.
    pub region_frames: OrderedMap<RegionId, ConstructionFrameId>,
    /// The grid that new rows inherit.
    pub editing_frame: ConstructionFrameId,
    /// From the coordinates in use back into build space.
    pub view_to_build: ConstructionFrame,
    /// The part that each replacement replaced.
    pub origins: OrderedMap<PartId, PartId>,
    /// The identity that the next grid gets.
    pub next_id: u64,
}

/// The ancestor of `part` that `steps` replacements back, if the ancestry goes that far.
pub open spec fn ancestor(origins: Map<PartId, PartId>, part: PartId, steps: nat) -> Option<PartId>
    decreases steps,
{
    if steps == 0 {
        Some(part)
    } else {
        match ancestor(origins, part, (steps - 1) as nat) {
            Some(previous) => if origins.dom().contains(previous) {
                Some(origins[previous])
            } else {
                None
            },
            None => None,
        }
    }
}

/// Whether every ancestry comes to an end.
pub open spec fn ancestry_ends(origins: Map<PartId, PartId>) -> bool {
    forall|part: PartId| #[trigger] ends(origins, part)
}

/// Whether the ancestry of `part` comes to an end.
pub open spec fn ends(origins: Map<PartId, PartId>, part: PartId) -> bool {
    exists|steps: nat| #[trigger] ancestor(origins, part, steps) is None
}

impl ConstructionFrames {
    /// The default grid exists, every membership names a grid, no identity
    /// is ahead of the next one, and no part replaces itself.
    pub open spec fn wf(&self) -> bool {
        &&& self.frames.wf()
        &&& self.members.wf()
        &&& self.region_frames.wf()
        &&& self.origins.wf()
        &&& self.frames@.dom().contains(ConstructionFrameId(0))
        &&& self.frames@.dom().contains(self.editing_frame)
        &&& forall|part: PartId| #[trigger]
            self.members@.dom().contains(part) ==> self.frames@.dom().contains(self.members@[part])
        &&& forall|region: RegionId| #[trigger]
            self.region_frames@.dom().contains(region) ==> self.frames@.dom().contains(
                self.region_frames@[region],
            )
        &&& forall|id: ConstructionFrameId| #[trigger]
            self.frames@.dom().contains(id) ==> id.0 < self.next_id
        &&& ancestry_ends(self.origins@)
    }

    /// Whether there is the default grid alone and nothing else.
    pub open spec fn is_default(&self) -> bool {
        &&& self.frames.keys@ == seq![ConstructionFrameId(0)]
        &&& self.frames.values@ == seq![ConstructionFrame::identity()]
        &&& self.members@ == Map::<PartId, ConstructionFrameId>::empty()
        &&& self.region_frames@ == Map::<RegionId, ConstructionFrameId>::empty()
        &&& self.editing_frame == ConstructionFrameId(0)
        &&& self.view_to_build == ConstructionFrame::identity()
        &&& self.origins@ == Map::<PartId, PartId>::empty()
        &&& self.next_id == 1
    }

    /// The default grid alone.
    pub fn new() -> (frames: Self)
        ensures
            frames.wf(),
            frames.is_default(),
    {
        let mut frames: OrderedMap<ConstructionFrameId, ConstructionFrame> = OrderedMap::new();
        frames.insert(ConstructionFrameId(0), ConstructionFrame::identity());
        let origins: OrderedMap<PartId, PartId> = OrderedMap::new();
        proof {
            assert forall|part: PartId| #[trigger] ends(origins@, part) by {
                assert(ancestor(origins@, part, 0) == Some(part));
                assert(ancestor(origins@, part, 1) is None);
            }
        }
        ConstructionFrames {
            frames,
            members: OrderedMap::new(),
            region_frames: OrderedMap::new(),
            editing_frame: ConstructionFrameId(0),
            view_to_build: ConstructionFrame::identity(),
            origins,
            next_id: 1,
        }
    }
}

/// The ancestry of `part` after some steps is the ancestry of the ancestor there.
proof fn lemma_ancestor_compose(
    origins: Map<PartId, PartId>,
    part: PartId,
    first: nat,
    second: nat,
)
    requires
        ancestor(origins, part, first) is Some,
    ensures
        ancestor(origins, part, first + second) == ancestor(
            origins,
            ancestor(origins, part, first)->0,
            second,
        ),
    decreases second,
{
    if second > 0 {
        lemma_ancestor_compose(origins, part, first, (second - 1) as nat);
        assert((first + second - 1) as nat == first + (second - 1) as nat);
    }
}

/// An ancestry that never meets `part` is the same after `part` gets an origin.
proof fn lemma_ancestor_unchanged(
    origins: Map<PartId, PartId>,
    part: PartId,
    source: PartId,
    from: PartId,
    steps: nat,
)
    requires
        forall|k: nat| k < steps ==> #[trigger] ancestor(origins, from, k) != Some(part),
    ensures
        ancestor(origins.insert(part, source), from, steps) == ancestor(origins, from, steps),
    decreases steps,
{
    if steps > 0 {
        let before = (steps - 1) as nat;
        lemma_ancestor_unchanged(origins, part, source, from, before);
        assert(ancestor(origins, from, before) != Some(part));
    }
}

/// Recording an origin that does not descend from the part keeps every ancestry finite.
pub proof fn lemma_origin_keeps_ends(origins: Map<PartId, PartId>, part: PartId, source: PartId)
    requires
        ancestry_ends(origins),
        forall|k: nat| #[trigger] ancestor(origins, source, k) != Some(part),
    ensures
        ancestry_ends(origins.insert(part, source)),
{
    let longer = origins.insert(part, source);
    assert forall|from: PartId| #[trigger] ends(longer, from) by {
        assert(ends(origins, from));
        assert(ends(origins, source));
        let tail = choose|steps: nat| #[trigger] ancestor(origins, source, steps) is None;
        lemma_ancestor_unchanged(origins, part, source, source, tail);
        if exists|k: nat| #[trigger] ancestor(origins, from, k) == Some(part) {
            let k = choose|k: nat| #[trigger] ancestor(origins, from, k) == Some(part);
            lemma_first_meeting(origins, part, from, k);
            let first = choose|first: nat|
                #[trigger] ancestor(origins, from, first) == Some(part) && forall|i: nat|
                    i < first ==> #[trigger] ancestor(origins, from, i) != Some(part);
            lemma_ancestor_unchanged(origins, part, source, from, first);
            assert(ancestor(longer, from, first) == Some(part));
            assert(ancestor(longer, from, first + 1) == Some(source));
            lemma_ancestor_compose(longer, from, first + 1, tail);
            assert(ancestor(longer, from, first + 1 + tail) is None);
        } else {
            let steps = choose|steps: nat| #[trigger] ancestor(origins, from, steps) is None;
            lemma_ancestor_unchanged(origins, part, source, from, steps);
            assert(ancestor(longer, from, steps) is None);
        }
    }
}

/// An ancestry that meets `part` meets it a first time.
proof fn lemma_first_meeting(origins: Map<PartId, PartId>, part: PartId, from: PartId, k: nat)
    requires
        ancestor(origins, from, k) == Some(part),
    ensures
        exists|first: nat|
            #[trigger] ancestor(origins, from, first) == Some(part) && forall|i: nat|
                i < first ==> #[trigger] ancestor(origins, from, i) != Some(part),
    decreases k,
{
    if exists|i: nat| i < k && #[trigger] ancestor(origins, from, i) == Some(part) {
        let i = choose|i: nat| i < k && #[trigger] ancestor(origins, from, i) == Some(part);
        lemma_first_meeting(origins, part, from, i);
    } else {
        assert(ancestor(origins, from, k) == Some(part));
    }
}

/// No part ever appears in its own ancestry.
pub proof fn no_part_descends_from_itself(origins: Map<PartId, PartId>, part: PartId, steps: nat)
    requires
        ancestry_ends(origins),
        steps > 0,
    ensures
        ancestor(origins, part, steps) != Some(part),
{
    if ancestor(origins, part, steps) == Some(part) {
        assert(ends(origins, part));
        let last = choose|n: nat| #[trigger] ancestor(origins, part, n) is None;
        lemma_ancestry_cycles(origins, part, steps, last);
        assert(last <= steps * last) by (nonlinear_arith)
            requires
                steps > 0,
        ;
        lemma_ancestry_stays_ended(origins, part, last, (steps * last) as nat);
    }
}

/// A cycle can be walked any number of times.
proof fn lemma_ancestry_cycles(origins: Map<PartId, PartId>, part: PartId, steps: nat, times: nat)
    requires
        ancestor(origins, part, steps) == Some(part),
    ensures
        ancestor(origins, part, (steps * times) as nat) == Some(part),
    decreases times,
{
    if times == 0 {
        assert(steps * times == 0) by (nonlinear_arith)
            requires
                times == 0,
        ;
    } else {
        lemma_ancestry_cycles(origins, part, steps, (times - 1) as nat);
        lemma_ancestor_compose(origins, part, (steps * (times - 1)) as nat, steps);
        assert(steps * times == steps * (times - 1) + steps) by (nonlinear_arith);
    }
}

/// An ended ancestry stays ended.
pub proof fn lemma_ancestry_stays_ended(
    origins: Map<PartId, PartId>,
    part: PartId,
    short: nat,
    long: nat,
)
    requires
        ancestor(origins, part, short) is None,
        short <= long,
    ensures
        ancestor(origins, part, long) is None,
    decreases long,
{
    if short < long {
        lemma_ancestry_stays_ended(origins, part, short, (long - 1) as nat);
    }
}

/// Grids agree exactly when all seven of their numbers have the same value, and
/// the default grid turns and moves nothing.
pub proof fn grids_agree_in_seven_numbers(a: ConstructionFrame, b: ConstructionFrame)
    requires
        a.translation.finite(),
        b.translation.finite(),
        a.rotation.x.finite() && a.rotation.y.finite() && a.rotation.z.finite()
            && a.rotation.w.finite(),
        b.rotation.x.finite() && b.rotation.y.finite() && b.rotation.z.finite()
            && b.rotation.w.finite(),
    ensures
        a.same_value(b) <==> a.translation.units() == b.translation.units() && a.rotation.x.units()
            == b.rotation.x.units() && a.rotation.y.units() == b.rotation.y.units()
            && a.rotation.z.units() == b.rotation.z.units() && a.rotation.w.units()
            == b.rotation.w.units(),
        ConstructionFrame::identity().translation.units() == (0int, 0int, 0int),
        ConstructionFrame::identity().rotation.w.units() == units_of_one(),
        ConstructionFrame::identity().rotation.x.units() == 0,
        ConstructionFrame::identity().rotation.y.units() == 0,
        ConstructionFrame::identity().rotation.z.units() == 0,
{
    numbers_compare_as_their_values(a.translation.x, b.translation.x);
    numbers_compare_as_their_values(a.translation.y, b.translation.y);
    numbers_compare_as_their_values(a.translation.z, b.translation.z);
    numbers_compare_as_their_values(a.rotation.x, b.rotation.x);
    numbers_compare_as_their_values(a.rotation.y, b.rotation.y);
    numbers_compare_as_their_values(a.rotation.z, b.rotation.z);
    numbers_compare_as_their_values(a.rotation.w, b.rotation.w);
    signs_are_those_of_values(a.rotation.w);
}

} // verus!
