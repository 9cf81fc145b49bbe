//! Stable handles of construction rows.

use vstd::prelude::*;

use crate::arena::Handle;
use crate::ordered::Ranked;

verus! {

/// The position of a handle: rows first, then generations of a row.
pub open spec fn handle_rank(index: u32, generation: u32) -> int {
    index * 0x1_0000_0000 + generation
}

/// A handle's position determines it.
pub proof fn lemma_handle_rank(a: u32, b: u32, c: u32, d: u32)
    ensures
        handle_rank(a, b) == handle_rank(c, d) ==> a == c && b == d,
        handle_rank(a, b) < handle_rank(c, d) <==> a < c || (a == c && b < d),
{
}

/// Whether one handle stands before another.
fn handle_precedes(a: u32, b: u32, c: u32, d: u32) -> (before: bool)
    ensures
        before == (handle_rank(a, b) < handle_rank(c, d)),
{
    a < c || (a == c && b < d)
}

/// Handle of an editable part.
#[derive(Clone, Copy, Debug, PartialEq, Eq, PartialOrd, Ord, Hash, Structural)]
pub struct PartId {
    pub index: u32,
    pub generation: u32,
}

impl Ranked for PartId {
    open spec fn rank(self) -> int {
        handle_rank(self.index, self.generation)
    }

    proof fn rank_identifies(a: Self, b: Self) {
        lemma_handle_rank(a.index, a.generation, b.index, b.generation);
    }

    fn precedes(self, other: Self) -> (before: bool) {
        handle_precedes(self.index, self.generation, other.index, other.generation)
    }
}

impl Handle for PartId {
    open spec fn slot(self) -> u32 {
        self.index
    }

    open spec fn age(self) -> u32 {
        self.generation
    }

    proof fn rank_is_slot_then_age(self) {
    }

    fn slot_of(self) -> (slot: u32) {
        self.index
    }

    fn mint(slot: u32, age: u32) -> (handle: Self) {
        PartId { index: slot, generation: age }
    }
}

/// Handle of a bearing, linear rail, piston or suspension.
#[derive(Clone, Copy, Debug, PartialEq, Eq, PartialOrd, Ord, Hash, Structural)]
pub struct BearingId {
    pub index: u32,
    pub generation: u32,
}

impl Ranked for BearingId {
    open spec fn rank(self) -> int {
        handle_rank(self.index, self.generation)
    }

    proof fn rank_identifies(a: Self, b: Self) {
        lemma_handle_rank(a.index, a.generation, b.index, b.generation);
    }

    fn precedes(self, other: Self) -> (before: bool) {
        handle_precedes(self.index, self.generation, other.index, other.generation)
    }
}

impl Handle for BearingId {
    open spec fn slot(self) -> u32 {
        self.index
    }

    open spec fn age(self) -> u32 {
        self.generation
    }

    proof fn rank_is_slot_then_age(self) {
    }

    fn slot_of(self) -> (slot: u32) {
        self.index
    }

    fn mint(slot: u32, age: u32) -> (handle: Self) {
        BearingId { index: slot, generation: age }
    }
}

/// Handle of a shape region.
#[derive(Clone, Copy, Debug, PartialEq, Eq, PartialOrd, Ord, Hash, Structural)]
pub struct RegionId {
    pub index: u32,
    pub generation: u32,
}

impl Ranked for RegionId {
    open spec fn rank(self) -> int {
        handle_rank(self.index, self.generation)
    }

    proof fn rank_identifies(a: Self, b: Self) {
        lemma_handle_rank(a.index, a.generation, b.index, b.generation);
    }

    fn precedes(self, other: Self) -> (before: bool) {
        handle_precedes(self.index, self.generation, other.index, other.generation)
    }
}

impl Handle for RegionId {
    open spec fn slot(self) -> u32 {
        self.index
    }

    open spec fn age(self) -> u32 {
        self.generation
    }

    proof fn rank_is_slot_then_age(self) {
    }

    fn slot_of(self) -> (slot: u32) {
        self.index
    }

    fn mint(slot: u32, age: u32) -> (handle: Self) {
        RegionId { index: slot, generation: age }
    }
}

/// Handle of a weld.
#[derive(Clone, Copy, Debug, PartialEq, Eq, PartialOrd, Ord, Hash, Structural)]
pub struct WeldId {
    pub index: u32,
    pub generation: u32,
}

impl Ranked for WeldId {
    open spec fn rank(self) -> int {
        handle_rank(self.index, self.generation)
    }

    proof fn rank_identifies(a: Self, b: Self) {
        lemma_handle_rank(a.index, a.generation, b.index, b.generation);
    }

    fn precedes(self, other: Self) -> (before: bool) {
        handle_precedes(self.index, self.generation, other.index, other.generation)
    }
}

impl Handle for WeldId {
    open spec fn slot(self) -> u32 {
        self.index
    }

    open spec fn age(self) -> u32 {
        self.generation
    }

    proof fn rank_is_slot_then_age(self) {
    }

    fn slot_of(self) -> (slot: u32) {
        self.index
    }

    fn mint(slot: u32, age: u32) -> (handle: Self) {
        WeldId { index: slot, generation: age }
    }
}

/// Handle of a rigid link.
#[derive(Clone, Copy, Debug, PartialEq, Eq, PartialOrd, Ord, Hash, Structural)]
pub struct RigidLinkId {
    pub index: u32,
    pub generation: u32,
}

impl Ranked for RigidLinkId {
    open spec fn rank(self) -> int {
        handle_rank(self.index, self.generation)
    }

    proof fn rank_identifies(a: Self, b: Self) {
        lemma_handle_rank(a.index, a.generation, b.index, b.generation);
    }

    fn precedes(self, other: Self) -> (before: bool) {
        handle_precedes(self.index, self.generation, other.index, other.generation)
    }
}

impl Handle for RigidLinkId {
    open spec fn slot(self) -> u32 {
        self.index
    }

    open spec fn age(self) -> u32 {
        self.generation
    }

    proof fn rank_is_slot_then_age(self) {
    }

    fn slot_of(self) -> (slot: u32) {
        self.index
    }

    fn mint(slot: u32, age: u32) -> (handle: Self) {
        RigidLinkId { index: slot, generation: age }
    }
}

/// Handle of a drive wire.
#[derive(Clone, Copy, Debug, PartialEq, Eq, PartialOrd, Ord, Hash, Structural)]
pub struct DriveLinkId {
    pub index: u32,
    pub generation: u32,
}

impl Ranked for DriveLinkId {
    open spec fn rank(self) -> int {
        handle_rank(self.index, self.generation)
    }

    proof fn rank_identifies(a: Self, b: Self) {
        lemma_handle_rank(a.index, a.generation, b.index, b.generation);
    }

    fn precedes(self, other: Self) -> (before: bool) {
        handle_precedes(self.index, self.generation, other.index, other.generation)
    }
}

impl Handle for DriveLinkId {
    open spec fn slot(self) -> u32 {
        self.index
    }

    open spec fn age(self) -> u32 {
        self.generation
    }

    proof fn rank_is_slot_then_age(self) {
    }

    fn slot_of(self) -> (slot: u32) {
        self.index
    }

    fn mint(slot: u32, age: u32) -> (handle: Self) {
        DriveLinkId { index: slot, generation: age }
    }
}

/// Handle of an Input-to-Seat link.
#[derive(Clone, Copy, Debug, PartialEq, Eq, PartialOrd, Ord, Hash, Structural)]
pub struct InputSeatLinkId {
    pub index: u32,
    pub generation: u32,
}

impl Ranked for InputSeatLinkId {
    open spec fn rank(self) -> int {
        handle_rank(self.index, self.generation)
    }

    proof fn rank_identifies(a: Self, b: Self) {
        lemma_handle_rank(a.index, a.generation, b.index, b.generation);
    }

    fn precedes(self, other: Self) -> (before: bool) {
        handle_precedes(self.index, self.generation, other.index, other.generation)
    }
}

impl Handle for InputSeatLinkId {
    open spec fn slot(self) -> u32 {
        self.index
    }

    open spec fn age(self) -> u32 {
        self.generation
    }

    proof fn rank_is_slot_then_age(self) {
    }

    fn slot_of(self) -> (slot: u32) {
        self.index
    }

    fn mint(slot: u32, age: u32) -> (handle: Self) {
        InputSeatLinkId { index: slot, generation: age }
    }
}

/// Handle of a Seat-to-Controller link.
#[derive(Clone, Copy, Debug, PartialEq, Eq, PartialOrd, Ord, Hash, Structural)]
pub struct SeatControllerLinkId {
    pub index: u32,
    pub generation: u32,
}

impl Ranked for SeatControllerLinkId {
    open spec fn rank(self) -> int {
        handle_rank(self.index, self.generation)
    }

    proof fn rank_identifies(a: Self, b: Self) {
        lemma_handle_rank(a.index, a.generation, b.index, b.generation);
    }

    fn precedes(self, other: Self) -> (before: bool) {
        handle_precedes(self.index, self.generation, other.index, other.generation)
    }
}

impl Handle for SeatControllerLinkId {
    open spec fn slot(self) -> u32 {
        self.index
    }

    open spec fn age(self) -> u32 {
        self.generation
    }

    proof fn rank_is_slot_then_age(self) {
    }

    fn slot_of(self) -> (slot: u32) {
        self.index
    }

    fn mint(slot: u32, age: u32) -> (handle: Self) {
        SeatControllerLinkId { index: slot, generation: age }
    }
}

/// Handle of a parametric edge feature.
#[derive(Clone, Copy, Debug, PartialEq, Eq, PartialOrd, Ord, Hash, Structural)]
pub struct ShapeFeatureId {
    pub index: u32,
    pub generation: u32,
}

impl Ranked for ShapeFeatureId {
    open spec fn rank(self) -> int {
        handle_rank(self.index, self.generation)
    }

    proof fn rank_identifies(a: Self, b: Self) {
        lemma_handle_rank(a.index, a.generation, b.index, b.generation);
    }

    fn precedes(self, other: Self) -> (before: bool) {
        handle_precedes(self.index, self.generation, other.index, other.generation)
    }
}

impl Handle for ShapeFeatureId {
    open spec fn slot(self) -> u32 {
        self.index
    }

    open spec fn age(self) -> u32 {
        self.generation
    }

    proof fn rank_is_slot_then_age(self) {
    }

    fn slot_of(self) -> (slot: u32) {
        self.index
    }

    fn mint(slot: u32, age: u32) -> (handle: Self) {
        ShapeFeatureId { index: slot, generation: age }
    }
}

/// Handles are ordered by row, and handles of one row by generation.
pub proof fn handles_are_ordered_by_row(a: PartId, b: PartId)
    ensures
        a.index < b.index ==> a.rank() < b.rank(),
        a.index == b.index && a.generation < b.generation ==> a.rank() < b.rank(),
        a.rank() == b.rank() ==> a == b,
{
    lemma_handle_rank(a.index, a.generation, b.index, b.generation);
}

} // verus!
