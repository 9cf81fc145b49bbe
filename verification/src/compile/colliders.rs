//! How many collider rows a construction needs.

use vstd::prelude::*;

use super::model::TopologyError;
use crate::graph::ConstructionGraph;
use crate::parts::{EdgeChainRef, PartShape, SolidOwner};

verus! {

/// Number of cuboid colliders used for each cylinder.
pub const CYLINDER_COLLIDER_COUNT: usize = 16;

/// Number of cuboid colliders used for each pipe bend: sixteen annular
/// sectors over each of twelve centreline slices.
pub const PIPE_BEND_COLLIDER_COUNT: usize = 16 * 12;

/// Largest number of collider rows one compiled creation may produce.
///
/// Shaping multiplies collider rows on the cells it touches, so a creation that
/// would swamp the solver must fail loudly at compile time rather than quietly
/// sinking the tick rate.
pub const MAX_COMPILED_COLLIDERS: usize = 131_072;

/// Facets of a spiral ridge, measured along its helix.
#[derive(Clone, Copy, Debug, PartialEq, Eq, Structural)]
pub struct SpiralRows {
    /// Segments from one end of the ridge to the other.
    pub ridge_segments: usize,
    /// Segments in one turn.
    pub steps_per_turn: u16,
}

/// Collider rows that geometry alone tells of a part.
#[derive(Clone, Copy, Debug, PartialEq, Eq, Structural)]
pub struct PartRows {
    /// Cells of the part once its edge features are replayed.
    pub feature_cells: usize,
    /// Rows of a pipe junction.
    pub junction: usize,
    /// Ridge of a spiral cylinder.
    pub spiral: Option<SpiralRows>,
}

/// Collider rows that geometry alone tells of a region.
#[derive(Clone, Copy, Debug, PartialEq, Eq, Structural)]
pub struct RegionRows {
    /// Cells of the region once its edge features are replayed.
    pub feature_cells: usize,
    /// Fused convex pieces of the region.
    pub pieces: usize,
}

/// Rows of a cylinder: its ring, and its ridge with one turn of overlap.
pub open spec fn cylinder_rows(spiral: Option<SpiralRows>) -> int {
    CYLINDER_COLLIDER_COUNT + match spiral {
        Some(spiral) => spiral.ridge_segments + spiral.steps_per_turn,
        None => 0,
    }
}

/// Number of cuboid colliders a cylinder produces.
pub fn cylinder_collider_count(spiral: Option<SpiralRows>) -> (rows: usize)
    requires
        cylinder_rows(spiral) <= usize::MAX,
    ensures
        rows == cylinder_rows(spiral),
{
    match spiral {
        Some(spiral) => CYLINDER_COLLIDER_COUNT + spiral.ridge_segments
            + spiral.steps_per_turn as usize,
        None => CYLINDER_COLLIDER_COUNT,
    }
}

/// Rows of an unfeatured part.
pub open spec fn shape_rows(shape: PartShape, rows: PartRows) -> int {
    match shape {
        PartShape::Cylinder { .. } => cylinder_rows(rows.spiral),
        PartShape::PipeBend { .. } => PIPE_BEND_COLLIDER_COUNT as int,
        PartShape::PipeJunction { .. } => rows.junction as int,
        _ => 1,
    }
}

/// Whether one of the first `count` targets names `owner`.
pub open spec fn targets_owner(targets: Seq<EdgeChainRef>, owner: SolidOwner) -> bool {
    exists|k: int| 0 <= k < targets.len() && (#[trigger] targets[k]).owner == owner
}

impl ConstructionGraph {
    /// Whether an edge feature treats a chain of `owner`.
    pub open spec fn featured(&self, owner: SolidOwner) -> bool {
        exists|i: int|
            0 <= i < self.shape_features.rows.values@.len() && targets_owner(
                (#[trigger] self.shape_features.rows.values@[i]).targets@,
                owner,
            )
    }

    /// Whether an edge feature treats a chain of `owner`.
    pub fn owner_has_shape_features(&self, owner: SolidOwner) -> (featured: bool)
        ensures
            featured == self.featured(owner),
    {
        let mut i: usize = 0;
        while i < self.shape_features.rows.values.len()
            invariant
                i <= self.shape_features.rows.values@.len(),
                forall|k: int|
                    #![trigger self.shape_features.rows.values@[k]]
                    0 <= k < i ==> !targets_owner(
                        self.shape_features.rows.values@[k].targets@,
                        owner,
                    ),
            decreases self.shape_features.rows.values@.len() - i,
        {
            let targets: &Vec<EdgeChainRef> = &self.shape_features.rows.values[i].targets;
            let mut k: usize = 0;
            while k < targets.len()
                invariant
                    i < self.shape_features.rows.values@.len(),
                    *targets == self.shape_features.rows.values@[i as int].targets,
                    k <= targets@.len(),
                    forall|j: int|
                        #![trigger targets@[j]]
                        0 <= j < k ==> targets@[j].owner != owner,
                decreases targets@.len() - k,
            {
                if targets[k].owner == owner {
                    assert(targets_owner(
                        self.shape_features.rows.values@[i as int].targets@,
                        owner,
                    )) by {
                        assert(targets@[k as int].owner == owner);
                    }
                    return true;
                }
                k += 1;
            }
            i += 1;
        }
        false
    }

    /// Collider rows of the part in row `i`.
    pub open spec fn part_collider_rows(&self, parts: Seq<PartRows>, i: int) -> int {
        if self.featured(SolidOwner::Part(self.parts.rows.keys@[i])) {
            parts[i].feature_cells as int
        } else {
            shape_rows(self.parts.rows.values@[i].shape, parts[i])
        }
    }

    /// Collider rows of the region in row `i`.
    pub open spec fn region_collider_rows(&self, regions: Seq<RegionRows>, i: int) -> int {
        if self.featured(SolidOwner::Region(self.regions.rows.keys@[i])) {
            regions[i].feature_cells as int
        } else {
            regions[i].pieces as int
        }
    }

    /// Collider rows of the first `count` parts.
    pub open spec fn parts_collider_rows(&self, parts: Seq<PartRows>, count: int) -> int
        decreases count,
    {
        if count <= 0 {
            0
        } else {
            self.parts_collider_rows(parts, count - 1) + self.part_collider_rows(parts, count - 1)
        }
    }

    /// Collider rows of the first `count` regions.
    pub open spec fn regions_collider_rows(&self, regions: Seq<RegionRows>, count: int) -> int
        decreases count,
    {
        if count <= 0 {
            0
        } else {
            self.regions_collider_rows(regions, count - 1) + self.region_collider_rows(
                regions,
                count - 1,
            )
        }
    }

    /// Collider rows of the construction.
    pub open spec fn collider_rows(&self, parts: Seq<PartRows>, regions: Seq<RegionRows>) -> int {
        self.parts_collider_rows(parts, self.parts.rows.keys@.len() as int)
            + self.regions_collider_rows(regions, self.regions.rows.keys@.len() as int)
    }

    /// More parts never need fewer rows.
    pub(crate) proof fn lemma_part_rows_grow(&self, parts: Seq<PartRows>, i: int, j: int)
        requires
            0 <= i <= j,
        ensures
            0 <= self.parts_collider_rows(parts, i) <= self.parts_collider_rows(parts, j),
        decreases j,
    {
        if i < j {
            self.lemma_part_rows_grow(parts, i, j - 1);
        } else if i > 0 {
            self.lemma_part_rows_grow(parts, i - 1, j - 1);
        }
    }

    /// More regions never need fewer rows.
    pub(crate) proof fn lemma_region_rows_grow(&self, regions: Seq<RegionRows>, i: int, j: int)
        requires
            0 <= i <= j,
        ensures
            0 <= self.regions_collider_rows(regions, i) <= self.regions_collider_rows(regions, j),
        decreases j,
    {
        if i < j {
            self.lemma_region_rows_grow(regions, i, j - 1);
        } else if i > 0 {
            self.lemma_region_rows_grow(regions, i - 1, j - 1);
        }
    }

    /// Counts the collider rows of a construction, and refuses it over the budget.
    pub fn check_collider_budget(&self, parts: &Vec<PartRows>, regions: &Vec<RegionRows>) -> (rows:
        Result<usize, TopologyError>)
        requires
            self.wf(),
            parts@.len() == self.parts.rows.keys@.len(),
            regions@.len() == self.regions.rows.keys@.len(),
            self.collider_rows(parts@, regions@) <= usize::MAX,
        ensures
            rows == if self.collider_rows(parts@, regions@) <= MAX_COMPILED_COLLIDERS {
                Ok::<usize, TopologyError>(self.collider_rows(parts@, regions@) as usize)
            } else {
                Err(
                    TopologyError::ColliderBudgetExceeded {
                        required: self.collider_rows(parts@, regions@) as usize,
                        available: MAX_COMPILED_COLLIDERS,
                    },
                )
            },
    {
        let ghost total = self.collider_rows(parts@, regions@);
        let mut required: usize = 0;
        let mut i: usize = 0;
        proof {
            self.lemma_region_rows_grow(regions@, 0, regions@.len() as int);
        }
        while i < self.parts.rows.keys.len()
            invariant
                self.wf(),
                i <= self.parts.rows.keys@.len(),
                parts@.len() == self.parts.rows.keys@.len(),
                self.parts_collider_rows(parts@, parts@.len() as int) <= usize::MAX,
                required == self.parts_collider_rows(parts@, i as int),
            decreases self.parts.rows.keys@.len() - i,
        {
            proof {
                self.lemma_part_rows_grow(parts@, i + 1, parts@.len() as int);
            }
            let rows: usize = if self.owner_has_shape_features(
                SolidOwner::Part(self.parts.rows.keys[i]),
            ) {
                parts[i].feature_cells
            } else {
                match self.parts.rows.values[i].shape {
                    PartShape::Cylinder { .. } => cylinder_collider_count(parts[i].spiral),
                    PartShape::PipeBend { .. } => PIPE_BEND_COLLIDER_COUNT,
                    PartShape::PipeJunction { .. } => parts[i].junction,
                    _ => 1,
                }
            };
            assert(rows == self.part_collider_rows(parts@, i as int));
            required += rows;
            i += 1;
        }
        let mut j: usize = 0;
        while j < self.regions.rows.keys.len()
            invariant
                self.wf(),
                j <= self.regions.rows.keys@.len(),
                regions@.len() == self.regions.rows.keys@.len(),
                total == self.collider_rows(parts@, regions@),
                total <= usize::MAX,
                required == self.parts_collider_rows(parts@, self.parts.rows.keys@.len() as int)
                    + self.regions_collider_rows(regions@, j as int),
            decreases self.regions.rows.keys@.len() - j,
        {
            proof {
                self.lemma_region_rows_grow(regions@, j + 1, regions@.len() as int);
            }
            let rows: usize = if self.owner_has_shape_features(
                SolidOwner::Region(self.regions.rows.keys[j]),
            ) {
                regions[j].feature_cells
            } else {
                regions[j].pieces
            };
            assert(rows == self.region_collider_rows(regions@, j as int));
            required += rows;
            j += 1;
        }
        if required > MAX_COMPILED_COLLIDERS {
            Err(
                TopologyError::ColliderBudgetExceeded {
                    required,
                    available: MAX_COMPILED_COLLIDERS,
                },
            )
        } else {
            Ok(required)
        }
    }
}

/// A solid is featured exactly when some target of some edge feature names it.
pub proof fn solids_are_featured_by_their_targets(
    graph: &ConstructionGraph,
    owner: SolidOwner,
    i: int,
    k: int,
)
    requires
        0 <= i < graph.shape_features.rows.values@.len(),
        0 <= k < graph.shape_features.rows.values@[i].targets@.len(),
    ensures
        graph.shape_features.rows.values@[i].targets@[k].owner == owner ==> graph.featured(owner),
        graph.featured(owner) ==> exists|j: int, l: int|
            #![trigger graph.shape_features.rows.values@[j].targets@[l]]
            0 <= j < graph.shape_features.rows.values@.len() && 0 <= l
                < graph.shape_features.rows.values@[j].targets@.len()
                && graph.shape_features.rows.values@[j].targets@[l].owner == owner,
{
    let rows = graph.shape_features.rows.values@;
    if rows[i].targets@[k].owner == owner {
        assert(targets_owner(rows[i].targets@, owner));
    }
    if graph.featured(owner) {
        let j = choose|j: int|
            0 <= j < rows.len() && targets_owner((#[trigger] rows[j]).targets@, owner);
        let targets = rows[j].targets@;
        let l = choose|l: int| 0 <= l < targets.len() && (#[trigger] targets[l]).owner == owner;
        assert(rows[j].targets@[l].owner == owner);
    }
}

/// What a part takes: sixteen rows for a cylinder and one for each facet of its
/// ridge, with a turn of overlap; twelve times sixteen for a bend; one for what
/// is a box; and as many as were counted for a junction, or for whatever an edge
/// feature treats.
pub proof fn parts_take_rows_by_their_make(graph: &ConstructionGraph, parts: Seq<PartRows>, i: int)
    requires
        0 <= i < parts.len(),
        parts.len() == graph.parts.rows.keys@.len(),
    ensures
        ({
            let shape = graph.parts.rows.values@[i].shape;
            let taken = graph.part_collider_rows(parts, i);
            if graph.featured(SolidOwner::Part(graph.parts.rows.keys@[i])) {
                taken == parts[i].feature_cells
            } else if shape is Cylinder && parts[i].spiral is None {
                taken == 16
            } else if shape is Cylinder {
                taken == 16 + parts[i].spiral->0.ridge_segments
                    + parts[i].spiral->0.steps_per_turn
            } else if shape is PipeBend {
                taken == 12 * 16
            } else if shape is PipeJunction {
                taken == parts[i].junction
            } else {
                taken == 1
            }
        }),
        MAX_COMPILED_COLLIDERS == 0x2_0000,
{
}

/// What the first parts take, with one counted anew.
proof fn lemma_parts_counted_anew(
    graph: &ConstructionGraph,
    parts: Seq<PartRows>,
    i: int,
    anew: PartRows,
    count: int,
)
    requires
        0 <= i < parts.len(),
        0 <= count <= parts.len(),
    ensures
        graph.parts_collider_rows(parts.update(i, anew), count) == graph.parts_collider_rows(
            parts,
            count,
        ) + if i < count {
            graph.part_collider_rows(parts.update(i, anew), i) - graph.part_collider_rows(parts, i)
        } else {
            0
        },
    decreases count,
{
    if count > 0 {
        lemma_parts_counted_anew(graph, parts, i, anew, count - 1);
        let changed = parts.update(i, anew);
        if count - 1 != i {
            assert(changed[count - 1] == parts[count - 1]);
        }
    }
}

/// What the first regions take, with one counted anew.
proof fn lemma_regions_counted_anew(
    graph: &ConstructionGraph,
    regions: Seq<RegionRows>,
    i: int,
    anew: RegionRows,
    count: int,
)
    requires
        0 <= i < regions.len(),
        0 <= count <= regions.len(),
    ensures
        graph.regions_collider_rows(regions.update(i, anew), count) == graph.regions_collider_rows(
            regions,
            count,
        ) + if i < count {
            graph.region_collider_rows(regions.update(i, anew), i) - graph.region_collider_rows(
                regions,
                i,
            )
        } else {
            0
        },
    decreases count,
{
    if count > 0 {
        lemma_regions_counted_anew(graph, regions, i, anew, count - 1);
        let changed = regions.update(i, anew);
        if count - 1 != i {
            assert(changed[count - 1] == regions[count - 1]);
        }
    }
}

/// Rows add up: a construction of nothing takes none, and counting one featured
/// part or one region anew changes the total by as much as its own count.
pub proof fn rows_add_up(
    graph: &ConstructionGraph,
    parts: Seq<PartRows>,
    regions: Seq<RegionRows>,
    i: int,
    cells: PartRows,
    pieces: RegionRows,
)
    requires
        parts.len() == graph.parts.rows.keys@.len(),
        regions.len() == graph.regions.rows.keys@.len(),
    ensures
        parts.len() == 0 && regions.len() == 0 ==> graph.collider_rows(parts, regions) == 0,
        0 <= i < parts.len() && graph.featured(SolidOwner::Part(graph.parts.rows.keys@[i]))
            ==> graph.collider_rows(parts.update(i, cells), regions) - graph.collider_rows(
            parts,
            regions,
        ) == cells.feature_cells - parts[i].feature_cells,
        0 <= i < regions.len() ==> graph.collider_rows(parts, regions.update(i, pieces))
            - graph.collider_rows(parts, regions) == if graph.featured(
            SolidOwner::Region(graph.regions.rows.keys@[i]),
        ) {
            pieces.feature_cells - regions[i].feature_cells
        } else {
            pieces.pieces - regions[i].pieces
        },
{
    if 0 <= i < parts.len() {
        lemma_parts_counted_anew(graph, parts, i, cells, parts.len() as int);
    }
    if 0 <= i < regions.len() {
        lemma_regions_counted_anew(graph, regions, i, pieces, regions.len() as int);
    }
}

} // verus!
