//! Shape regions of a saved creation, back in a construction.

use vstd::prelude::*;
use vstd::relations::{sorted_by, total_ordering};

use super::connect::{first_fault, lemma_first_fault, lemma_no_fault, region_ids};
use super::doc::{CreationError, GraphError, RegionDoc};
use super::snapshot::copy_rows;
use crate::arena::Arena;
use crate::frame::ConstructionFrameId;
use crate::grid::GridVec;
use crate::ids::RegionId;
use crate::ordered::OrderedMap;
use crate::region::{plane_is_free, planes_inside, with_plane, Cage, RegionError, ShapeRegion};

verus! {

/// Whether positions make inner planes: inside the extent, and none twice.
pub open spec fn planes_drawable(positions: Seq<i32>, size: int) -> bool {
    &&& forall|i: int|
        #![trigger positions[i]]
        0 <= i < positions.len() ==> 0 < positions[i] < size
    &&& positions.no_duplicates()
}

/// Planes in ascending order.
pub open spec fn sorted_planes(positions: Seq<i32>) -> Seq<i32> {
    positions.sort_by(|a: i32, b: i32| a <= b)
}

/// The cage that a row describes.
pub open spec fn cage_of_doc(doc: RegionDoc) -> Cage {
    Cage {
        size: GridVec { x: doc.size_cells@[0], y: doc.size_cells@[1], z: doc.size_cells@[2] },
        x: sorted_planes(doc.divisions_x@),
        y: sorted_planes(doc.divisions_y@),
        z: sorted_planes(doc.divisions_z@),
    }
}

/// Why a region's row is refused, if it is: its extent, its planes, then its vertices.
pub open spec fn region_doc_fault(doc: RegionDoc) -> Option<CreationError> {
    let size = doc.size_cells@;
    if size[0] <= 0 || size[1] <= 0 || size[2] <= 0 {
        Some(CreationError::Graph(GraphError::Region(RegionError::EmptyExtent)))
    } else if !planes_drawable(doc.divisions_x@, size[0] as int) || !planes_drawable(
        doc.divisions_y@,
        size[1] as int,
    ) || !planes_drawable(doc.divisions_z@, size[2] as int) {
        Some(CreationError::Graph(GraphError::Region(RegionError::InvalidPlane)))
    } else {
        match cage_of_doc(doc).first_fault(doc.vertices@, doc.vertices@.len() as int) {
            Some(error) => Some(CreationError::Graph(GraphError::Region(error))),
            None => None,
        }
    }
}

/// Whether a region is the one that a row describes.
pub open spec fn region_of_doc(doc: RegionDoc, region: ShapeRegion) -> bool {
    let origin = doc.origin_steps@;
    &&& region.origin_steps == GridVec { x: origin[0], y: origin[1], z: origin[2] }
    &&& region.cage() == cage_of_doc(doc)
    &&& region.material == doc.material
    &&& region.appearance == doc.appearance
    &&& region.vertices@ == doc.vertices@
}

/// Ascending planes of the same positions are the positions in order.
proof fn lemma_sorted_planes(divisions: Seq<i32>, size: int, positions: Seq<i32>)
    requires
        planes_inside(divisions, size),
        divisions.to_multiset() == positions.to_multiset(),
    ensures
        divisions == sorted_planes(positions),
{
    let order = |a: i32, b: i32| a <= b;
    assert(total_ordering(order));
    positions.lemma_sort_by_ensures(order);
    assert(sorted_by(divisions, order));
    vstd::seq_lib::lemma_sorted_unique(divisions, positions.sort_by(order), order);
}

/// Planes that already ascend are in order.
pub proof fn lemma_planes_in_order(divisions: Seq<i32>, size: int)
    requires
        planes_inside(divisions, size),
    ensures
        planes_drawable(divisions, size),
        sorted_planes(divisions) == divisions,
{
    lemma_sorted_planes(divisions, size, divisions);
    assert forall|i: int, j: int| 0 <= i < divisions.len() && 0 <= j < divisions.len() && i
        != j implies divisions[i] != divisions[j] by {
        if i < j {
            assert(divisions[i] < divisions[j]);
        } else {
            assert(divisions[j] < divisions[i]);
        }
    }
}

/// Equal collections hold the same positions.
proof fn lemma_same_positions(divisions: Seq<i32>, positions: Seq<i32>, position: i32)
    requires
        divisions.to_multiset() == positions.to_multiset(),
    ensures
        divisions.contains(position) <==> positions.contains(position),
{
    broadcast use vstd::seq_lib::group_to_multiset_ensures;

    assert(divisions.contains(position) <==> divisions.to_multiset().count(position) > 0);
    assert(positions.contains(position) <==> positions.to_multiset().count(position) > 0);
}

/// Draws planes along one axis, one after the other.
fn draw_planes(region: &mut ShapeRegion, axis: usize, positions: &Vec<i32>) -> (drawn: Result<
    (),
    RegionError,
>)
    requires
        old(region).wf(),
        axis < 3,
        old(region).divisions(axis as int).len() == 0,
        old(region).vertices@.len() == 0,
    ensures
        final(region).wf(),
        drawn == (if planes_drawable(positions@, old(region).size(axis as int)) {
            Ok::<(), RegionError>(())
        } else {
            Err(RegionError::InvalidPlane)
        }),
        final(region).origin_steps == old(region).origin_steps,
        final(region).size_cells == old(region).size_cells,
        final(region).material == old(region).material,
        final(region).appearance == old(region).appearance,
        final(region).vertices@ == old(region).vertices@,
        drawn is Ok ==> final(region).divisions(axis as int) == sorted_planes(positions@),
        forall|other: int|
            0 <= other < 3 && other != axis ==> #[trigger] final(region).divisions(other) == old(
                region,
            ).divisions(other),
{
    let ghost before = *region;
    let ghost size = region.size(axis as int);
    let mut i: usize = 0;
    proof {
        assert(region.divisions(axis as int) =~= positions@.take(0));
        assert(planes_drawable(positions@.take(0), size));
    }
    while i < positions.len()
        invariant
            i <= positions@.len(),
            axis < 3,
            before == *old(region),
            size == before.size(axis as int),
            region.wf(),
            region.origin_steps == before.origin_steps,
            region.size_cells == before.size_cells,
            region.material == before.material,
            region.appearance == before.appearance,
            region.vertices@ == before.vertices@,
            region.vertices@.len() == 0,
            planes_drawable(positions@.take(i as int), size),
            region.divisions(axis as int).to_multiset() == positions@.take(
                i as int,
            ).to_multiset(),
            forall|other: int|
                0 <= other < 3 && other != axis ==> #[trigger] region.divisions(other)
                    == before.divisions(other),
        decreases positions@.len() - i,
    {
        let position: i32 = positions[i];
        let ghost held = region.divisions(axis as int);
        let ghost drawn = positions@.take(i as int);
        let ghost longer = positions@.take(i + 1);
        proof {
            assert(longer =~= drawn.push(position));
            lemma_same_positions(held, drawn, position);
        }
        match region.subdivide(axis, position) {
            Ok(()) => {},
            Err(error) => {
                proof {
                    assert(!plane_is_free(held, size, position));
                    if planes_drawable(positions@, size) {
                        assert(positions@[i as int] == position);
                        assert(drawn.contains(position));
                        let at = drawn.index_of(position);
                        assert(positions@[at] == positions@[i as int]);
                    }
                }
                return Err(error);
            },
        }
        proof {
            let at = choose|at: int|
                0 <= at <= held.len() && region.divisions(axis as int) == #[trigger] with_plane(
                    held,
                    at,
                    position,
                );
            vstd::seq_lib::to_multiset_insert(held, at, position);
            vstd::seq_lib::to_multiset_build(drawn, position);
            assert forall|k: int| #![trigger longer[k]] 0 <= k < longer.len() implies 0 < longer[k]
                < size by {
                if k < i {
                    assert(drawn[k] == longer[k]);
                }
            }
            assert forall|a: int, b: int| 0 <= a < longer.len() && 0 <= b < longer.len() && a
                != b implies longer[a] != longer[b] by {
                if a < i && b < i {
                    assert(drawn[a] != drawn[b]);
                } else if a < i {
                    assert(drawn.contains(drawn[a]));
                } else {
                    assert(drawn.contains(drawn[b]));
                }
            }
        }
        i += 1;
    }
    proof {
        assert(positions@.take(i as int) =~= positions@);
        lemma_sorted_planes(region.divisions(axis as int), size, positions@);
    }
    Ok(())
}

/// The region of a row.
pub fn resolve_region(doc: &RegionDoc) -> (region: Result<ShapeRegion, CreationError>)
    ensures
        match region_doc_fault(*doc) {
            Some(error) => region == Err::<ShapeRegion, CreationError>(error),
            None => region is Ok && region->Ok_0.wf() && region_of_doc(*doc, region->Ok_0),
        },
{
    let origin: GridVec = GridVec::from_array(doc.origin_steps);
    let size: GridVec = GridVec::from_array(doc.size_cells);
    let mut region: ShapeRegion = match ShapeRegion::from_origin_steps(origin, size, doc.material) {
        Ok(region) => region.with_appearance(doc.appearance),
        Err(error) => {
            return Err(CreationError::Graph(GraphError::Region(error)));
        },
    };
    let ghost blank = region;
    match draw_planes(&mut region, 0, &doc.divisions_x) {
        Ok(()) => {},
        Err(error) => {
            return Err(CreationError::Graph(GraphError::Region(error)));
        },
    }
    assert(region.divisions(1) == blank.divisions(1));
    assert(region.divisions(2) == blank.divisions(2));
    let ghost first = region;
    match draw_planes(&mut region, 1, &doc.divisions_y) {
        Ok(()) => {},
        Err(error) => {
            return Err(CreationError::Graph(GraphError::Region(error)));
        },
    }
    assert(region.divisions(0) == first.divisions(0));
    assert(region.divisions(2) == first.divisions(2));
    let ghost second = region;
    match draw_planes(&mut region, 2, &doc.divisions_z) {
        Ok(()) => {},
        Err(error) => {
            return Err(CreationError::Graph(GraphError::Region(error)));
        },
    }
    assert(region.divisions(0) == second.divisions(0));
    assert(region.divisions(1) == second.divisions(1));
    assert(region.cage() == cage_of_doc(*doc));
    match region.set_vertices(copy_rows(&doc.vertices)) {
        Ok(()) => Ok(region),
        Err(error) => Err(CreationError::Graph(GraphError::Region(error))),
    }
}

/// Faults of regions.
pub open spec fn region_faults(docs: Seq<RegionDoc>) -> Seq<Option<CreationError>> {
    docs.map_values(|doc: RegionDoc| region_doc_fault(doc))
}

/// The grid of each of the first `count` regions to come back.
pub open spec fn region_grids(grids: Seq<ConstructionFrameId>, count: int) -> Map<
    RegionId,
    ConstructionFrameId,
> {
    Map::new(
        |region: RegionId| region.generation == 0 && region.index < count,
        |region: RegionId| grids[region.index as int],
    )
}

/// Puts regions back, each on its grid.
pub fn load_regions(
    regions: &mut Arena<RegionId, ShapeRegion>,
    members: &mut OrderedMap<RegionId, ConstructionFrameId>,
    docs: &Vec<RegionDoc>,
    grids: &Vec<ConstructionFrameId>,
) -> (loaded: Result<Vec<RegionId>, CreationError>)
    requires
        old(regions).wf(),
        old(regions).gapless(),
        old(regions).rows.keys@.len() == 0,
        old(members).wf(),
        old(members)@ == Map::<RegionId, ConstructionFrameId>::empty(),
        docs@.len() < u32::MAX,
        grids@.len() == docs@.len(),
    ensures
        final(regions).wf(),
        final(regions).gapless(),
        final(members).wf(),
        match first_fault(region_faults(docs@)) {
            Some(error) => loaded == Err::<Vec<RegionId>, CreationError>(error),
            None => {
                &&& loaded is Ok
                &&& loaded->Ok_0@ == region_ids(docs@.len())
                &&& final(regions).rows.values@.len() == docs@.len()
                &&& forall|i: int|
                    #![trigger final(regions).rows.values@[i]]
                    0 <= i < docs@.len() ==> final(regions).rows.values@[i].wf()
                &&& forall|i: int|
                    #![trigger final(regions).rows.values@[i]]
                    0 <= i < docs@.len() ==> region_of_doc(
                        docs@[i],
                        final(regions).rows.values@[i],
                    )
                &&& final(members)@ == region_grids(grids@, docs@.len() as int)
            },
        },
{
    let ghost faults = region_faults(docs@);
    let mut ids: Vec<RegionId> = Vec::new();
    let mut i: usize = 0;
    proof {
        assert(members@ =~= region_grids(grids@, 0));
    }
    while i < docs.len()
        invariant
            i <= docs@.len() < u32::MAX,
            grids@.len() == docs@.len(),
            regions.wf(),
            regions.gapless(),
            members.wf(),
            members@ == region_grids(grids@, i as int),
            faults == region_faults(docs@),
            ids@ == region_ids(i as nat),
            regions.rows.values@.len() == i,
            forall|k: int|
                #![trigger regions.rows.values@[k]]
                0 <= k < i ==> regions.rows.values@[k].wf(),
            forall|k: int|
                #![trigger regions.rows.values@[k]]
                0 <= k < i ==> region_of_doc(docs@[k], regions.rows.values@[k]),
            forall|k: int| #![trigger faults[k]] 0 <= k < i ==> faults[k] is None,
        decreases docs@.len() - i,
    {
        let ghost held = regions.rows.values@;
        assert(faults[i as int] == region_doc_fault(docs@[i as int]));
        match resolve_region(&docs[i]) {
            Ok(region) => {
                let id: RegionId = regions.append(region);
                members.insert(id, grids[i]);
                ids.push(id);
            },
            Err(error) => {
                proof {
                    lemma_first_fault(faults, i as int);
                }
                return Err(error);
            },
        }
        proof {
            assert(ids@ =~= region_ids((i + 1) as nat));
            assert(members@ =~= region_grids(grids@, i + 1));
            assert forall|k: int| #![trigger regions.rows.values@[k]] 0 <= k < i + 1 implies {
                &&& regions.rows.values@[k].wf()
                &&& region_of_doc(docs@[k], regions.rows.values@[k])
            } by {
                if k < i {
                    assert(regions.rows.values@[k] == held[k]);
                }
            }
        }
        i += 1;
    }
    proof {
        lemma_no_fault(faults);
    }
    Ok(ids)
}

/// A region comes back where its row puts it, as large as it says, with its own
/// planes in ascending order and its vertices as written.
pub proof fn regions_come_back_as_written(doc: RegionDoc, region: ShapeRegion, p: i32)
    requires
        region_of_doc(doc, region),
    ensures
        region.origin_steps.x == doc.origin_steps@[0] && region.origin_steps.y
            == doc.origin_steps@[1] && region.origin_steps.z == doc.origin_steps@[2],
        region.size_cells.x == doc.size_cells@[0] && region.size_cells.y == doc.size_cells@[1]
            && region.size_cells.z == doc.size_cells@[2],
        region.material == doc.material && region.appearance == doc.appearance,
        region.vertices@ == doc.vertices@,
        region.divisions_x@.contains(p) <==> doc.divisions_x@.contains(p),
        region.divisions_y@.contains(p) <==> doc.divisions_y@.contains(p),
        region.divisions_z@.contains(p) <==> doc.divisions_z@.contains(p),
{
    lemma_same_planes(doc.divisions_x@, p);
    lemma_same_planes(doc.divisions_y@, p);
    lemma_same_planes(doc.divisions_z@, p);
}

/// Ordering planes keeps them.
proof fn lemma_same_planes(positions: Seq<i32>, p: i32)
    ensures
        sorted_planes(positions).contains(p) <==> positions.contains(p),
{
    let le = |a: i32, b: i32| a <= b;
    positions.lemma_sort_by_ensures(le);
    let sorted = positions.sort_by(le);
    positions.to_multiset_ensures();
    sorted.to_multiset_ensures();
    assert(positions.to_multiset().count(p) == sorted.to_multiset().count(p));
}

/// A region is refused for an empty extent first, then for a plane on or outside
/// its sides or drawn twice, and then for its vertices.
pub proof fn regions_are_refused_for_their_extent(doc: RegionDoc, axis: int)
    requires
        0 <= axis < 3,
    ensures
        doc.size_cells@[axis] <= 0 ==> region_doc_fault(doc) == Some(
            CreationError::Graph(GraphError::Region(RegionError::EmptyExtent)),
        ),
        region_doc_fault(doc) is None ==> doc.size_cells@[axis] > 0,
        region_doc_fault(doc) is None ==> doc.divisions_x@.no_duplicates()
            && doc.divisions_y@.no_duplicates() && doc.divisions_z@.no_duplicates(),
        region_doc_fault(doc) is None ==> forall|i: int|
            #![trigger doc.divisions_x@[i]]
            0 <= i < doc.divisions_x@.len() ==> 0 < doc.divisions_x@[i] < doc.size_cells@[0],
        region_doc_fault(doc) is None ==> forall|i: int|
            #![trigger doc.divisions_y@[i]]
            0 <= i < doc.divisions_y@.len() ==> 0 < doc.divisions_y@[i] < doc.size_cells@[1],
        region_doc_fault(doc) is None ==> forall|i: int|
            #![trigger doc.divisions_z@[i]]
            0 <= i < doc.divisions_z@.len() ==> 0 < doc.divisions_z@[i] < doc.size_cells@[2],
{
    assert(axis == 0 || axis == 1 || axis == 2);
}

} // verus!
