//! Which region of a document holds which part.

use vstd::prelude::*;

use super::doc::{CreationDocument, RegionDoc};
use super::rows::pose_doc_in;
use super::transform::pose_in;
use crate::grid::POSITION_TICKS_PER_GRID_UNIT;

verus! {

/// Whether a point lies strictly inside a region's box.
pub open spec fn box_holds(region: RegionDoc, point: Seq<i32>) -> bool {
    forall|axis: int|
        #![trigger point[axis]]
        0 <= axis < 3 ==> region.origin_steps@[axis] < point[axis] < region.origin_steps@[axis]
            + region.size_cells@[axis] * POSITION_TICKS_PER_GRID_UNIT
}

/// Whether a coordinate lies strictly between the ends of a box.
fn between(low: i32, cells: i32, at: i32) -> (inside: bool)
    ensures
        inside == (low < at < low + cells * POSITION_TICKS_PER_GRID_UNIT),
{
    let high: i64 = low as i64 + cells as i64 * 100;
    low < at && (at as i64) < high
}

impl CreationDocument {
    /// Whether a region stands on a part's grid and its box holds the part's centre.
    pub open spec fn region_holds(&self, region: int, part: int) -> bool {
        &&& 0 <= region < self.region_frames@.len()
        &&& 0 <= part < self.part_frames@.len()
        &&& self.region_frames@[region] == self.part_frames@[part]
        &&& box_holds(self.regions@[region], pose_doc_in(self.parts@[part]).translation_ticks@)
    }

    /// Whether `owner` is the first region that holds a part, if one does.
    pub open spec fn owned_by(&self, part: int, owner: Option<u32>) -> bool {
        match owner {
            Some(region) => {
                &&& region < self.regions@.len()
                &&& self.region_holds(region as int, part)
                &&& forall|other: int| 0 <= other < region ==> !#[trigger] self.region_holds(
                    other,
                    part,
                )
            },
            None => forall|other: int|
                0 <= other < self.regions@.len() ==> !#[trigger] self.region_holds(other, part),
        }
    }

    /// The first region on the grid of each part whose box holds the part's centre.
    pub fn region_owners(&self) -> (owners: Vec<Option<u32>>)
        requires
            self.regions@.len() <= u32::MAX,
        ensures
            owners@.len() == self.parts@.len(),
            forall|part: int|
                #![trigger owners@[part]]
                0 <= part < owners@.len() ==> self.owned_by(part, owners@[part]),
            self.owners_listed(owners@),
    {
        let mut owners: Vec<Option<u32>> = Vec::new();
        let mut part: usize = 0;
        while part < self.parts.len()
            invariant
                part <= self.parts@.len(),
                self.regions@.len() <= u32::MAX,
                owners@.len() == part,
                forall|row: int|
                    #![trigger owners@[row]]
                    0 <= row < part ==> self.owned_by(row, owners@[row]),
            decreases self.parts@.len() - part,
        {
            let owner: Option<u32> = self.region_owner(part);
            owners.push(owner);
            part += 1;
        }
        assert forall|row: int| #![trigger owners@[row]]
            0 <= row < owners@.len() && owners@[row] is Some implies self.region_holds(
            owners@[row]->0 as int,
            row,
        ) by {
            assert(self.owned_by(row, owners@[row]));
        }
        owners
    }

    /// The first region that holds a part, if one does.
    fn region_owner(&self, part: usize) -> (owner: Option<u32>)
        requires
            part < self.parts@.len(),
            self.regions@.len() <= u32::MAX,
        ensures
            self.owned_by(part as int, owner),
    {
        let centre: [i32; 3] = pose_in(&self.parts[part]).translation_ticks;
        let mut at: usize = 0;
        while at < self.regions.len()
            invariant
                part < self.parts@.len(),
                at <= self.regions@.len() <= u32::MAX,
                centre == pose_doc_in(self.parts@[part as int]).translation_ticks,
                forall|other: int|
                    0 <= other < at ==> !#[trigger] self.region_holds(other, part as int),
            decreases self.regions@.len() - at,
        {
            let region: &RegionDoc = &self.regions[at];
            let inside: bool = between(region.origin_steps[0], region.size_cells[0], centre[0])
                && between(region.origin_steps[1], region.size_cells[1], centre[1]) && between(
                region.origin_steps[2],
                region.size_cells[2],
                centre[2],
            );
            assert(inside == box_holds(*region, centre@));
            if part < self.part_frames.len() && at < self.region_frames.len()
                && self.region_frames[at] == self.part_frames[part] && inside {
                assert(self.region_holds(at as int, part as int));
                return Some(at as u32);
            }
            assert(!self.region_holds(at as int, part as int));
            at += 1;
        }
        None
    }
}

/// A part belongs to the first region on its own grid whose box holds its
/// centre strictly: a box starts at its origin and reaches a hundred steps for
/// each of its cells.
pub proof fn parts_belong_to_the_first_box_around_them(
    document: &CreationDocument,
    owners: Seq<Option<u32>>,
    part: int,
    region: int,
)
    requires
        document.owned_by(part, owners[part]),
        0 <= part < document.part_frames@.len(),
        0 <= region < document.regions@.len() == document.region_frames@.len(),
    ensures
        ({
            let center = pose_doc_in(document.parts@[part]).translation_ticks@;
            let row = document.regions@[region];
            let held = document.region_frames@[region] == document.part_frames@[part] && (forall|
                axis: int,
            |
                #![trigger center[axis]]
                0 <= axis < 3 ==> 0 < center[axis] - row.origin_steps@[axis] < row.size_cells@[axis]
                    * 100);
            &&& held ==> owners[part] is Some && owners[part]->0 <= region
            &&& owners[part] == Some(region as u32) && region <= u32::MAX ==> held
        }),
{
    let center = pose_doc_in(document.parts@[part]).translation_ticks@;
    let row = document.regions@[region];
    if document.region_frames@[region] == document.part_frames@[part] && forall|axis: int|
        #![trigger center[axis]]
        0 <= axis < 3 ==> 0 < center[axis] - row.origin_steps@[axis] < row.size_cells@[axis]
            * 100 {
        assert forall|axis: int| #![trigger center[axis]] 0 <= axis < 3 implies row.origin_steps@[axis]
            < center[axis] < row.origin_steps@[axis] + row.size_cells@[axis]
            * POSITION_TICKS_PER_GRID_UNIT by {}
        assert(box_holds(row, center));
        assert(document.region_holds(region, part));
    }
    if owners[part] == Some(region as u32) && region <= u32::MAX {
        assert(document.region_holds(region, part));
        assert(box_holds(row, center));
    }
}

} // verus!
