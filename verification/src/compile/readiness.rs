//! Tests of what compiling asks of a construction and of what is measured of it.

use vstd::prelude::*;

use super::actuation::{claims_countable, ports_countable};
use super::assembly::{lemma_rows_grow, rows_before, CompileMeasures};
use super::colliders::{
    PartRows, RegionRows, CYLINDER_COLLIDER_COUNT, PIPE_BEND_COLLIDER_COUNT,
};
use super::compounds::CompoundPlan;
use super::drives::{PortCapacity, PortClaim};
use crate::graph::ConstructionGraph;
use crate::parts::{BearingSpec, FaceOwner, PartShape, RigidLinkSpec, SolidOwner, WeldSpec};

verus! {

impl ConstructionGraph {
    /// Whether a face belongs to a live part or to the ground.
    fn is_owner_live(&self, owner: FaceOwner) -> (live: bool)
        requires
            self.wf(),
        ensures
            live == self.owner_live(owner),
    {
        match owner {
            FaceOwner::Part(part) => self.part(part).is_some(),
            FaceOwner::Ground => true,
        }
    }

    /// Whether a joint starts on a live part, and ends on one unless a head of its own is bare.
    fn is_bearing_live(&self, bearing: &BearingSpec) -> (live: bool)
        requires
            self.wf(),
        ensures
            live == self.bearing_live(*bearing),
    {
        let source: bool = match bearing.source.owner {
            FaceOwner::Part(part) => self.part(part).is_some(),
            FaceOwner::Ground => false,
        };
        let target: bool = match bearing.target {
            Some(face) => match face.owner {
                FaceOwner::Part(part) => self.part(part).is_some(),
                FaceOwner::Ground => false,
            },
            None => bearing.kind.owns_head,
        };
        source && target
    }

    /// Whether connections name live rows, and joints hold parts.
    pub fn references_are_live(&self) -> (live: bool)
        requires
            self.wf(),
        ensures
            live == self.references_live(),
    {
        let mut w: usize = 0;
        while w < self.welds.rows.values.len()
            invariant
                self.wf(),
                w <= self.welds.rows.values@.len(),
                forall|i: int|
                    #![trigger self.welds.rows.values@[i]]
                    0 <= i < w ==> self.owner_live(self.welds.rows.values@[i].first.owner)
                        && self.owner_live(self.welds.rows.values@[i].second.owner),
            decreases self.welds.rows.values@.len() - w,
        {
            let weld: WeldSpec = self.welds.rows.values[w];
            if !self.is_owner_live(weld.first.owner) || !self.is_owner_live(weld.second.owner) {
                assert(self.welds.rows.values@[w as int] == weld);
                return false;
            }
            w += 1;
        }
        let mut l: usize = 0;
        while l < self.rigid_links.rows.values.len()
            invariant
                self.wf(),
                l <= self.rigid_links.rows.values@.len(),
                forall|i: int|
                    #![trigger self.rigid_links.rows.values@[i]]
                    0 <= i < l ==> self.has_part(self.rigid_links.rows.values@[i].first)
                        && self.has_part(self.rigid_links.rows.values@[i].second),
            decreases self.rigid_links.rows.values@.len() - l,
        {
            let link: RigidLinkSpec = self.rigid_links.rows.values[l];
            if self.part(link.first).is_none() || self.part(link.second).is_none() {
                assert(self.rigid_links.rows.values@[l as int] == link);
                return false;
            }
            l += 1;
        }
        let mut b: usize = 0;
        while b < self.bearings.rows.values.len()
            invariant
                self.wf(),
                b <= self.bearings.rows.values@.len(),
                forall|i: int|
                    #![trigger self.bearings.rows.values@[i]]
                    0 <= i < b ==> self.bearing_live(self.bearings.rows.values@[i]),
            decreases self.bearings.rows.values@.len() - b,
        {
            if !self.is_bearing_live(&self.bearings.rows.values[b]) {
                assert(!self.bearing_live(self.bearings.rows.values@[b as int]));
                return false;
            }
            b += 1;
        }
        true
    }

    /// Whether every wire's program is a valid one.
    pub fn programs_are_valid(&self) -> (valid: bool)
        ensures
            valid == self.programs_valid(),
    {
        let mut l: usize = 0;
        while l < self.drive_links.rows.values.len()
            invariant
                l <= self.drive_links.rows.values@.len(),
                forall|i: int|
                    #![trigger self.drive_links.rows.values@[i]]
                    0 <= i < l ==> self.drive_links.rows.values@[i].program.wf(),
            decreases self.drive_links.rows.values@.len() - l,
        {
            if !self.drive_links.rows.values[l].program.is_valid() {
                assert(!self.drive_links.rows.values@[l as int].program.wf());
                return false;
            }
            l += 1;
        }
        true
    }

    /// Whether the collider rows of a construction can be counted.
    fn are_rows_countable(&self, parts: &Vec<PartRows>, regions: &Vec<RegionRows>) -> (countable:
        bool)
        requires
            self.wf(),
            parts@.len() == self.parts.rows.keys@.len(),
            regions@.len() == self.regions.rows.keys@.len(),
        ensures
            countable == (self.collider_rows(parts@, regions@) <= usize::MAX),
    {
        let most: u128 = usize::MAX as u128;
        let mut total: u128 = 0;
        let mut i: usize = 0;
        proof {
            self.lemma_region_rows_grow(regions@, 0, regions@.len() as int);
        }
        while i < parts.len()
            invariant
                self.wf(),
                most == usize::MAX,
                i <= parts@.len() == self.parts.rows.keys@.len(),
                regions@.len() == self.regions.rows.keys@.len(),
                0 <= self.regions_collider_rows(regions@, regions@.len() as int),
                total == self.parts_collider_rows(parts@, i as int),
                total <= most,
            decreases parts@.len() - i,
        {
            let rows: PartRows = parts[i];
            let featured: bool = self.owner_has_shape_features(
                SolidOwner::Part(self.parts.rows.keys[i]),
            );
            let added: u128 = if featured {
                rows.feature_cells as u128
            } else {
                match self.parts.rows.values[i].shape {
                    PartShape::Cylinder { .. } => CYLINDER_COLLIDER_COUNT as u128
                        + match rows.spiral {
                        Some(spiral) => spiral.ridge_segments as u128
                            + spiral.steps_per_turn as u128,
                        None => 0,
                    },
                    PartShape::PipeBend { .. } => PIPE_BEND_COLLIDER_COUNT as u128,
                    PartShape::PipeJunction { .. } => rows.junction as u128,
                    _ => 1,
                }
            };
            assert(added == self.part_collider_rows(parts@, i as int));
            total = total + added;
            i += 1;
            if total > most {
                proof {
                    self.lemma_part_rows_grow(parts@, i as int, parts@.len() as int);
                }
                return false;
            }
        }
        let mut j: usize = 0;
        while j < regions.len()
            invariant
                self.wf(),
                most == usize::MAX,
                parts@.len() == self.parts.rows.keys@.len(),
                j <= regions@.len() == self.regions.rows.keys@.len(),
                total == self.parts_collider_rows(parts@, parts@.len() as int)
                    + self.regions_collider_rows(regions@, j as int),
                total <= most,
            decreases regions@.len() - j,
        {
            let featured: bool = self.owner_has_shape_features(
                SolidOwner::Region(self.regions.rows.keys[j]),
            );
            let added: u128 = if featured {
                regions[j].feature_cells as u128
            } else {
                regions[j].pieces as u128
            };
            assert(added == self.region_collider_rows(regions@, j as int));
            total = total + added;
            j += 1;
            if total > most {
                proof {
                    self.lemma_region_rows_grow(regions@, j as int, regions@.len() as int);
                }
                return false;
            }
        }
        true
    }

    /// Whether everything of a planned construction is measured, and row
    /// numbers can be counted.
    pub fn is_measured(&self, plan: &CompoundPlan, measures: &CompileMeasures) -> (ready: bool)
        requires
            self.wf(),
        ensures
            ready == self.measured(*plan, *measures),
    {
        let most: u128 = u32::MAX as u128;
        if measures.part_rows.len() != self.parts.rows.keys.len() || measures.region_rows.len()
            != self.regions.rows.keys.len() || measures.sums.len() != plan.compounds.len()
            || measures.kept_rows.len() != plan.compounds.len() || measures.depths.len()
            != self.parts.rows.keys.len() || measures.claims.len()
            != self.drive_links.rows.values.len() || measures.claims.len() as u128 > most {
            return false;
        }
        self.are_rows_countable(&measures.part_rows, &measures.region_rows) && are_kept_countable(
            &measures.kept_rows,
        ) && claims_are_countable(&measures.claims, measures.capacity)
    }
}

/// Whether the rows that compounds keep can be numbered.
fn are_kept_countable(kept: &Vec<u32>) -> (countable: bool)
    ensures
        countable == (rows_before(kept@, kept@.len() as int) <= u32::MAX),
{
    let mut total: u64 = 0;
    let mut c: usize = 0;
    while c < kept.len()
        invariant
            c <= kept@.len(),
            total == rows_before(kept@, c as int),
            total <= u32::MAX,
        decreases kept@.len() - c,
    {
        total = total + kept[c] as u64;
        c += 1;
        if total > u32::MAX as u64 {
            proof {
                lemma_rows_grow(kept@, c as int, kept@.len() as int);
            }
            return false;
        }
    }
    true
}

/// Whether the ports of every wire's module can be counted.
fn claims_are_countable(claims: &Vec<PortClaim>, capacity: PortCapacity) -> (countable: bool)
    ensures
        countable == claims_countable(claims@, capacity),
{
    let mut l: usize = 0;
    while l < claims.len()
        invariant
            l <= claims@.len(),
            forall|i: int|
                #![trigger claims@[i]]
                0 <= i < l ==> ports_countable(claims@[i], capacity),
        decreases claims@.len() - l,
    {
        let count: u128 = claims[l].module.len() as u128;
        let electric: u128 = capacity.electric as u128;
        let gas: u128 = capacity.gas as u128;
        proof {
            assert(count * electric <= u64::MAX * u32::MAX) by (nonlinear_arith)
                requires
                    0 <= count <= u64::MAX,
                    0 <= electric <= u32::MAX,
            ;
            assert(count * gas <= u64::MAX * u32::MAX) by (nonlinear_arith)
                requires
                    0 <= count <= u64::MAX,
                    0 <= gas <= u32::MAX,
            ;
        }
        let most: u128 = u32::MAX as u128;
        let fits: bool = count <= most && count * electric <= most && count * gas <= most;
        assert(fits == ports_countable(claims@[l as int], capacity));
        if !fits {
            return false;
        }
        l += 1;
    }
    true
}

} // verus!
