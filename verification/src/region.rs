//! Shape regions: boxes of blocks reshaped by a cage of movable vertices.

use vstd::prelude::*;

use crate::appearance::MaterialAppearance;
use crate::grid::{GridVec, POSITION_TICKS_PER_GRID_UNIT};
use crate::parts::ConstructionMaterial;

verus! {

/// A displaced cage vertex: its plane along each axis, and its offset in position ticks.
#[derive(Clone, Copy, Debug, PartialEq, Eq)]
pub struct CageVertex {
    /// Plane along x, y and z.
    pub index: [u16; 3],
    /// Offset from the planes' crossing.
    pub offset: [i16; 3],
}

/// Invalid region edit.
#[derive(Clone, Copy, Debug, PartialEq, Eq, Structural)]
pub enum RegionError {
    /// A region covers at least one cell along each axis.
    EmptyExtent,
    /// An axis is x, y or z.
    UnknownAxis,
    /// A cage plane lies strictly inside the region and off every other plane.
    InvalidPlane,
    /// A vertex names a plane that the cage does not have.
    MissingVertex,
    /// A displaced vertex left the region's box.
    VertexOutsideRegion,
    /// The graph has no such region.
    MissingRegion,
}

/// A box of blocks and the cage that reshapes it.
#[derive(Debug, PartialEq, Eq)]
pub struct ShapeRegion {
    /// Minimum corner in position ticks.
    pub origin_steps: GridVec,
    /// Extent in grid units.
    pub size_cells: GridVec,
    /// Material every block in the region shares.
    pub material: ConstructionMaterial,
    /// Color and finish shared by every region member.
    pub appearance: MaterialAppearance,
    /// Inner cage planes along x, in grid units from the origin, ascending.
    pub divisions_x: Vec<i32>,
    /// Inner cage planes along y.
    pub divisions_y: Vec<i32>,
    /// Inner cage planes along z.
    pub divisions_z: Vec<i32>,
    /// Displaced vertices.
    pub vertices: Vec<CageVertex>,
}

/// The planes of a region: its extent and the inner planes along each axis.
pub ghost struct Cage {
    pub size: GridVec,
    pub x: Seq<i32>,
    pub y: Seq<i32>,
    pub z: Seq<i32>,
}

impl Cage {
    /// Why a vertex is refused, if it is.
    pub open spec fn vertex_fault(self, vertex: CageVertex) -> Option<RegionError> {
        let index = vertex.index@;
        let offset = vertex.offset@;
        if index[0] > self.x.len() + 1 || index[1] > self.y.len() + 1 || index[2] > self.z.len()
            + 1 {
            Some(RegionError::MissingVertex)
        } else if stays_inside(self.x, self.size.x as int, index[0], offset[0]) && stays_inside(
            self.y,
            self.size.y as int,
            index[1],
            offset[1],
        ) && stays_inside(self.z, self.size.z as int, index[2], offset[2]) {
            None
        } else {
            Some(RegionError::VertexOutsideRegion)
        }
    }

    /// The fault of the first refused vertex among the first `count`.
    pub open spec fn first_fault(self, vertices: Seq<CageVertex>, count: int) -> Option<RegionError>
        decreases count,
    {
        if count <= 0 {
            None
        } else if self.first_fault(vertices, count - 1) is Some {
            self.first_fault(vertices, count - 1)
        } else {
            self.vertex_fault(vertices[count - 1])
        }
    }
}

/// Whether inner planes ascend strictly inside an extent.
pub open spec fn planes_inside(divisions: Seq<i32>, size: int) -> bool {
    &&& forall|i: int|
        #![trigger divisions[i]]
        0 <= i < divisions.len() ==> 0 < divisions[i] < size
    &&& forall|i: int, j: int|
        #![trigger divisions[i], divisions[j]]
        0 <= i < j < divisions.len() ==> divisions[i] < divisions[j]
}

/// Where plane `index` stands along an axis, in grid units from the origin.
pub open spec fn plane_at(divisions: Seq<i32>, size: int, index: int) -> int {
    if index <= 0 {
        0
    } else if index <= divisions.len() {
        divisions[index - 1] as int
    } else {
        size
    }
}

/// Whether a vertex's displacement along one axis stays within the box.
pub open spec fn stays_inside(divisions: Seq<i32>, size: int, index: u16, offset: i16) -> bool {
    0 <= plane_at(divisions, size, index as int) * POSITION_TICKS_PER_GRID_UNIT + offset <= size
        * POSITION_TICKS_PER_GRID_UNIT
}

/// Whether two lists of integers agree.
fn same_planes(a: &Vec<i32>, b: &Vec<i32>) -> (same: bool)
    ensures
        same == (a@ == b@),
{
    if a.len() != b.len() {
        return false;
    }
    let mut i: usize = 0;
    while i < a.len()
        invariant
            i <= a@.len(),
            a@.len() == b@.len(),
            a@.take(i as int) =~= b@.take(i as int),
        decreases a@.len() - i,
    {
        if a[i] != b[i] {
            assert(a@[i as int] != b@[i as int]);
            return false;
        }
        i += 1;
    }
    assert(a@.take(i as int) =~= a@);
    assert(b@.take(i as int) =~= b@);
    true
}

impl CageVertex {
    /// Whether two displacements are the same.
    pub fn same(&self, other: &Self) -> (same: bool)
        ensures
            same == (*self == *other),
    {
        let same: bool = self.index[0] == other.index[0] && self.index[1] == other.index[1]
            && self.index[2] == other.index[2] && self.offset[0] == other.offset[0]
            && self.offset[1] == other.offset[1] && self.offset[2] == other.offset[2];
        proof {
            if same {
                assert(self.index@ =~= other.index@);
                assert(self.offset@ =~= other.offset@);
                assert(self.index == other.index);
                assert(self.offset == other.offset);
            }
        }
        same
    }
}

impl ShapeRegion {
    /// Whether two regions agree in value.
    pub open spec fn same_value(&self, other: &Self) -> bool {
        &&& self.origin_steps == other.origin_steps
        &&& self.size_cells == other.size_cells
        &&& self.material == other.material
        &&& self.appearance.same_value(other.appearance)
        &&& self.divisions_x@ == other.divisions_x@
        &&& self.divisions_y@ == other.divisions_y@
        &&& self.divisions_z@ == other.divisions_z@
        &&& self.vertices@ == other.vertices@
    }

    /// Whether two regions are the same, down to the encoding of their numbers.
    pub open spec fn agrees(&self, other: &Self) -> bool {
        &&& self.origin_steps == other.origin_steps
        &&& self.size_cells == other.size_cells
        &&& self.material == other.material
        &&& self.appearance == other.appearance
        &&& self.divisions_x@ == other.divisions_x@
        &&& self.divisions_y@ == other.divisions_y@
        &&& self.divisions_z@ == other.divisions_z@
        &&& self.vertices@ == other.vertices@
    }

    /// Whether two regions agree in value.
    pub fn same(&self, other: &Self) -> (same: bool)
        ensures
            same == self.same_value(other),
    {
        if self.origin_steps != other.origin_steps || self.size_cells != other.size_cells
            || self.material != other.material || !self.appearance.equal(other.appearance)
            || !same_planes(&self.divisions_x, &other.divisions_x) || !same_planes(
            &self.divisions_y,
            &other.divisions_y,
        ) || !same_planes(&self.divisions_z, &other.divisions_z) || self.vertices.len()
            != other.vertices.len() {
            return false;
        }
        let mut i: usize = 0;
        while i < self.vertices.len()
            invariant
                i <= self.vertices@.len(),
                self.vertices@.len() == other.vertices@.len(),
                self.vertices@.take(i as int) =~= other.vertices@.take(i as int),
            decreases self.vertices@.len() - i,
        {
            if !self.vertices[i].same(&other.vertices[i]) {
                assert(self.vertices@[i as int] != other.vertices@[i as int]);
                return false;
            }
            i += 1;
        }
        assert(self.vertices@.take(i as int) =~= self.vertices@);
        assert(other.vertices@.take(i as int) =~= other.vertices@);
        true
    }

    /// The cage of this region.
    pub open spec fn cage(&self) -> Cage {
        Cage {
            size: self.size_cells,
            x: self.divisions_x@,
            y: self.divisions_y@,
            z: self.divisions_z@,
        }
    }

    /// Why a vertex is refused, if it is.
    pub open spec fn vertex_fault(&self, vertex: CageVertex) -> Option<RegionError> {
        self.cage().vertex_fault(vertex)
    }

    /// Extents are positive, planes lie inside, and no vertex leaves the box.
    pub open spec fn wf(&self) -> bool {
        &&& self.size_cells.x > 0 && self.size_cells.y > 0 && self.size_cells.z > 0
        &&& planes_inside(self.divisions_x@, self.size_cells.x as int)
        &&& planes_inside(self.divisions_y@, self.size_cells.y as int)
        &&& planes_inside(self.divisions_z@, self.size_cells.z as int)
        &&& forall|i: int|
            #![trigger self.vertices@[i]]
            0 <= i < self.vertices@.len() ==> self.vertex_fault(self.vertices@[i]) is None
    }

    /// Claims a box of cells whose minimum corner lies at exact position ticks.
    pub fn from_origin_steps(
        origin_steps: GridVec,
        size_cells: GridVec,
        material: ConstructionMaterial,
    ) -> (region: Result<Self, RegionError>)
        ensures
            region is Ok <==> size_cells.x > 0 && size_cells.y > 0 && size_cells.z > 0,
            region is Err ==> region->Err_0 == RegionError::EmptyExtent,
            region is Ok ==> {
                &&& region->Ok_0.wf()
                &&& region->Ok_0.origin_steps == origin_steps
                &&& region->Ok_0.size_cells == size_cells
                &&& region->Ok_0.material == material
                &&& region->Ok_0.appearance == MaterialAppearance::baked()
                &&& region->Ok_0.divisions_x@.len() == 0
                &&& region->Ok_0.divisions_y@.len() == 0
                &&& region->Ok_0.divisions_z@.len() == 0
                &&& region->Ok_0.vertices@.len() == 0
            },
    {
        if size_cells.x <= 0 || size_cells.y <= 0 || size_cells.z <= 0 {
            return Err(RegionError::EmptyExtent);
        }
        Ok(
            ShapeRegion {
                origin_steps,
                size_cells,
                material,
                appearance: MaterialAppearance::baked(),
                divisions_x: Vec::new(),
                divisions_y: Vec::new(),
                divisions_z: Vec::new(),
                vertices: Vec::new(),
            },
        )
    }

    /// Sets the shared color and finish.
    pub fn with_appearance(self, appearance: MaterialAppearance) -> (region: Self)
        requires
            self.wf(),
        ensures
            region == (ShapeRegion { appearance, ..self }),
            region.wf(),
    {
        let mut region = self;
        region.appearance = appearance;
        proof {
            assert forall|i: int| #![trigger region.vertices@[i]]
                0 <= i < region.vertices@.len() implies region.vertex_fault(region.vertices@[i]) is None by {
                assert(self.vertex_fault(self.vertices@[i]) is None);
            }
        }
        region
    }

    /// Number of cage planes along each axis.
    pub fn plane_counts(&self) -> (counts: [usize; 3])
        requires
            self.divisions_x@.len() + 2 <= usize::MAX,
            self.divisions_y@.len() + 2 <= usize::MAX,
            self.divisions_z@.len() + 2 <= usize::MAX,
        ensures
            counts@[0] == self.divisions_x@.len() + 2,
            counts@[1] == self.divisions_y@.len() + 2,
            counts@[2] == self.divisions_z@.len() + 2,
    {
        [self.divisions_x.len() + 2, self.divisions_y.len() + 2, self.divisions_z.len() + 2]
    }

    /// Whether one axis of a vertex stays within the box.
    fn axis_inside(divisions: &Vec<i32>, size: i32, index: u16, offset: i16) -> (inside: bool)
        requires
            size > 0,
            planes_inside(divisions@, size as int),
            index <= divisions@.len() + 1,
        ensures
            inside == stays_inside(divisions@, size as int, index, offset),
    {
        let plane: i32 = if index == 0 {
            0
        } else if index as usize <= divisions.len() {
            divisions[index as usize - 1]
        } else {
            size
        };
        assert(0 <= plane <= size);
        let moved: i64 = plane as i64 * 100 + offset as i64;
        let limit: i64 = size as i64 * 100;
        0 <= moved && moved <= limit
    }

    /// Why a vertex is refused, if it is.
    fn check_vertex(&self, vertex: CageVertex) -> (fault: Option<RegionError>)
        requires
            self.size_cells.x > 0 && self.size_cells.y > 0 && self.size_cells.z > 0,
            planes_inside(self.divisions_x@, self.size_cells.x as int),
            planes_inside(self.divisions_y@, self.size_cells.y as int),
            planes_inside(self.divisions_z@, self.size_cells.z as int),
        ensures
            fault == self.vertex_fault(vertex),
    {
        let ix: u16 = vertex.index[0];
        let iy: u16 = vertex.index[1];
        let iz: u16 = vertex.index[2];
        if (ix > 0 && ix as usize - 1 > self.divisions_x.len()) || (iy > 0 && iy as usize - 1
            > self.divisions_y.len()) || (iz > 0 && iz as usize - 1 > self.divisions_z.len()) {
            return Some(RegionError::MissingVertex);
        }
        if Self::axis_inside(&self.divisions_x, self.size_cells.x, ix, vertex.offset[0])
            && Self::axis_inside(&self.divisions_y, self.size_cells.y, iy, vertex.offset[1])
            && Self::axis_inside(&self.divisions_z, self.size_cells.z, iz, vertex.offset[2]) {
            None
        } else {
            Some(RegionError::VertexOutsideRegion)
        }
    }

    /// The fault of the first refused vertex among the first `count`.
    pub open spec fn first_fault(&self, vertices: Seq<CageVertex>, count: int) -> Option<RegionError> {
        self.cage().first_fault(vertices, count)
    }

    /// A fault among the first vertices is the first fault of them all.
    proof fn lemma_fault_stays(&self, vertices: Seq<CageVertex>, short: int, long: int)
        requires
            0 <= short <= long,
            self.first_fault(vertices, short) is Some,
        ensures
            self.first_fault(vertices, long) == self.first_fault(vertices, short),
        decreases long - short,
    {
        if short < long {
            self.lemma_fault_stays(vertices, short, long - 1);
        }
    }

    /// Displaces cage vertices. A vertex may move inward only: it never leaves the box.
    pub fn set_vertices(&mut self, vertices: Vec<CageVertex>) -> (done: Result<(), RegionError>)
        requires
            old(self).wf(),
        ensures
            final(self).wf(),
            done == (match old(self).first_fault(vertices@, vertices@.len() as int) {
                Some(error) => Err::<(), RegionError>(error),
                None => Ok(()),
            }),
            done is Err ==> *final(self) == *old(self),
            done is Ok ==> *final(self) == (ShapeRegion { vertices, ..*old(self) }),
    {
        let mut i: usize = 0;
        while i < vertices.len()
            invariant
                self.wf(),
                *self == *old(self),
                i <= vertices@.len(),
                self.first_fault(vertices@, i as int) is None,
                forall|j: int|
                    #![trigger vertices@[j]]
                    0 <= j < i ==> self.vertex_fault(vertices@[j]) is None,
            decreases vertices@.len() - i,
        {
            match self.check_vertex(vertices[i]) {
                Some(error) => {
                    proof {
                        self.lemma_fault_stays(vertices@, i + 1, vertices@.len() as int);
                    }
                    return Err(error);
                },
                None => {},
            }
            i += 1;
        }
        let ghost before = *self;
        self.vertices = vertices;
        proof {
            assert forall|j: int| #![trigger self.vertices@[j]]
                0 <= j < self.vertices@.len() implies self.vertex_fault(self.vertices@[j]) is None by {
                assert(before.vertex_fault(vertices@[j]) is None);
            }
        }
        Ok(())
    }
}

/// Inner planes with one more, in order.
pub open spec fn with_plane(divisions: Seq<i32>, at: int, position: i32) -> Seq<i32> {
    divisions.insert(at, position)
}

/// Whether `position` may become an inner plane.
pub open spec fn plane_is_free(divisions: Seq<i32>, size: int, position: i32) -> bool {
    0 < position < size && !divisions.contains(position)
}

/// Puts a plane among ascending inner planes, if it is free.
fn insert_plane(divisions: &mut Vec<i32>, size: i32, position: i32) -> (done: bool)
    requires
        planes_inside(old(divisions)@, size as int),
    ensures
        planes_inside(final(divisions)@, size as int),
        done == plane_is_free(old(divisions)@, size as int, position),
        !done ==> final(divisions)@ == old(divisions)@,
        done ==> exists|at: int|
            0 <= at <= old(divisions)@.len() && final(divisions)@ == #[trigger] with_plane(
                old(divisions)@,
                at,
                position,
            ),
{
    if position <= 0 || position >= size {
        return false;
    }
    let ghost before = divisions@;
    let mut at: usize = 0;
    while at < divisions.len() && divisions[at] < position
        invariant
            divisions@ == before,
            at <= before.len(),
            forall|i: int| #![trigger before[i]] 0 <= i < at ==> before[i] < position,
        decreases before.len() - at,
    {
        at += 1;
    }
    if at < divisions.len() && divisions[at] == position {
        assert(before[at as int] == position);
        return false;
    }
    proof {
        if before.contains(position) {
            let i = before.index_of(position);
            assert(before[i] == position);
            if i > at {
                assert(before[at as int] < before[i]);
            }
        }
    }
    divisions.insert(at, position);
    proof {
        let after = divisions@;
        assert(after == with_plane(before, at as int, position));
        assert forall|i: int, j: int| #![trigger after[i], after[j]]
            0 <= i < j < after.len() implies after[i] < after[j] by {
            let p = if i < at { i } else { i - 1 };
            let q = if j < at { j } else { j - 1 };
            if i != at && j != at {
                assert(before[p] < before[q]);
            } else if i == at {
                if q > at {
                    assert(before[at as int] < before[q]);
                }
            }
        }
        assert forall|i: int| #![trigger after[i]] 0 <= i < after.len() implies 0 < after[i] < size by {
            if i < at {
                assert(before[i] == after[i]);
            } else if i > at {
                assert(before[i - 1] == after[i]);
            }
        }
    }
    true
}

impl ShapeRegion {
    /// The inner planes along an axis.
    pub open spec fn divisions(&self, axis: int) -> Seq<i32> {
        if axis == 0 {
            self.divisions_x@
        } else if axis == 1 {
            self.divisions_y@
        } else {
            self.divisions_z@
        }
    }

    /// The extent along an axis.
    pub open spec fn size(&self, axis: int) -> int {
        if axis == 0 {
            self.size_cells.x as int
        } else if axis == 1 {
            self.size_cells.y as int
        } else {
            self.size_cells.z as int
        }
    }

    /// Why a new cage plane is refused, if it is.
    pub open spec fn plane_fault(&self, axis: usize, position: i32) -> Option<RegionError> {
        if axis > 2 {
            Some(RegionError::UnknownAxis)
        } else if self.vertices@.len() > 0 || !plane_is_free(
            self.divisions(axis as int),
            self.size(axis as int),
            position,
        ) {
            Some(RegionError::InvalidPlane)
        } else {
            None
        }
    }

    /// Adds a cage plane to a region whose vertices all rest.
    pub fn subdivide(&mut self, axis: usize, position: i32) -> (done: Result<(), RegionError>)
        requires
            old(self).wf(),
        ensures
            final(self).wf(),
            done == (match old(self).plane_fault(axis, position) {
                Some(error) => Err::<(), RegionError>(error),
                None => Ok(()),
            }),
            done is Err ==> *final(self) == *old(self),
            done is Ok ==> {
                &&& exists|at: int|
                    0 <= at <= old(self).divisions(axis as int).len() && final(self).divisions(
                        axis as int,
                    ) == #[trigger] with_plane(old(self).divisions(axis as int), at, position)
                &&& forall|other: int|
                    0 <= other < 3 && other != axis ==> #[trigger] final(self).divisions(other)
                        == old(self).divisions(other)
                &&& final(self).origin_steps == old(self).origin_steps
                &&& final(self).size_cells == old(self).size_cells
                &&& final(self).material == old(self).material
                &&& final(self).appearance == old(self).appearance
                &&& final(self).vertices@ == old(self).vertices@
            },
    {
        if axis > 2 {
            return Err(RegionError::UnknownAxis);
        }
        if self.vertices.len() > 0 {
            return Err(RegionError::InvalidPlane);
        }
        let mut divisions: Vec<i32> = Vec::new();
        let ghost before = *self;
        let size: i32 = if axis == 0 {
            self.size_cells.x
        } else if axis == 1 {
            self.size_cells.y
        } else {
            self.size_cells.z
        };
        let current: &Vec<i32> = if axis == 0 {
            &self.divisions_x
        } else if axis == 1 {
            &self.divisions_y
        } else {
            &self.divisions_z
        };
        let mut i: usize = 0;
        while i < current.len()
            invariant
                i <= current@.len(),
                divisions@ =~= current@.take(i as int),
            decreases current@.len() - i,
        {
            divisions.push(current[i]);
            i += 1;
        }
        assert(divisions@ =~= self.divisions(axis as int));
        if !insert_plane(&mut divisions, size, position) {
            return Err(RegionError::InvalidPlane);
        }
        if axis == 0 {
            self.divisions_x = divisions;
        } else if axis == 1 {
            self.divisions_y = divisions;
        } else {
            self.divisions_z = divisions;
        }
        Ok(())
    }
}

/// The planes of a cage run from one side of the box to the other, each beyond
/// the one before it.
pub proof fn cage_planes_ascend(divisions: Seq<i32>, size: int, i: int, j: int)
    requires
        planes_inside(divisions, size),
        0 < size,
        0 <= i < j <= divisions.len() + 1,
    ensures
        plane_at(divisions, size, i) < plane_at(divisions, size, j),
        plane_at(divisions, size, 0) == 0,
        plane_at(divisions, size, divisions.len() as int + 1) == size,
        0 < i <= divisions.len() ==> plane_at(divisions, size, i) == divisions[i - 1],
{
    if 0 < i <= divisions.len() {
        assert(0 < divisions[i - 1] < size);
    }
    if 0 < j <= divisions.len() {
        assert(0 < divisions[j - 1] < size);
    }
}

/// A vertex is accepted exactly when it names planes that the cage has and its
/// displacement, in ticks of a hundredth of a cell, leaves it in the box.
pub proof fn accepted_vertices_lie_in_the_box(cage: Cage, vertex: CageVertex)
    ensures
        ({
            let index = vertex.index@;
            let offset = vertex.offset@;
            let named = index[0] <= cage.x.len() + 1 && index[1] <= cage.y.len() + 1 && index[2]
                <= cage.z.len() + 1;
            let x = 100 * plane_at(cage.x, cage.size.x as int, index[0] as int) + offset[0];
            let y = 100 * plane_at(cage.y, cage.size.y as int, index[1] as int) + offset[1];
            let z = 100 * plane_at(cage.z, cage.size.z as int, index[2] as int) + offset[2];
            let inside = 0 <= x <= 100 * cage.size.x && 0 <= y <= 100 * cage.size.y && 0 <= z <= 100
                * cage.size.z;
            &&& cage.vertex_fault(vertex) is None <==> named && inside
            &&& cage.vertex_fault(vertex) == Some(RegionError::MissingVertex) <==> !named
            &&& cage.vertex_fault(vertex) == Some(RegionError::VertexOutsideRegion) <==> named
                && !inside
        }),
{
}

/// Vertices are accepted when each of them is, and refused for the first that
/// is not.
pub proof fn the_first_refused_vertex_is_told(cage: Cage, vertices: Seq<CageVertex>, count: int, i: int)
    requires
        0 <= i < count <= vertices.len(),
    ensures
        cage.first_fault(vertices, count) is None ==> cage.vertex_fault(vertices[i]) is None,
        cage.vertex_fault(vertices[i]) is Some && (forall|j: int|
            #![trigger vertices[j]]
            0 <= j < i ==> cage.vertex_fault(vertices[j]) is None) ==> cage.first_fault(
            vertices,
            count,
        ) == cage.vertex_fault(vertices[i]),
        (forall|j: int|
            #![trigger vertices[j]]
            0 <= j < count ==> cage.vertex_fault(vertices[j]) is None) ==> cage.first_fault(
            vertices,
            count,
        ) is None,
    decreases count,
{
    if count > 1 {
        if i < count - 1 {
            the_first_refused_vertex_is_told(cage, vertices, count - 1, i);
        } else {
            the_first_refused_vertex_is_told(cage, vertices, count - 1, 0);
        }
    }
    if count == 1 {
        assert(cage.first_fault(vertices, 0) is None);
    }
}

/// A plane is added strictly inside a box whose vertices all rest, along x, y
/// or z, where there is none yet.
pub proof fn planes_are_added_where_there_is_none(
    region: &ShapeRegion,
    axis: usize,
    position: i32,
    along: Seq<i32>,
    size: i32,
)
    requires
        axis == 0 ==> along == region.divisions_x@ && size == region.size_cells.x,
        axis == 1 ==> along == region.divisions_y@ && size == region.size_cells.y,
        axis == 2 ==> along == region.divisions_z@ && size == region.size_cells.z,
    ensures
        region.plane_fault(axis, position) is None <==> axis < 3 && region.vertices@.len() == 0 && 0
            < position < size && !along.contains(position),
        region.plane_fault(axis, position) == Some(RegionError::UnknownAxis) <==> axis >= 3,
{
}

/// Two regions agree when they are the same box of the same stuff with the same
/// cage.
pub proof fn regions_agree_in_every_field(a: &ShapeRegion, b: &ShapeRegion)
    ensures
        a.same_value(b) ==> {
            &&& a.origin_steps == b.origin_steps && a.size_cells == b.size_cells
            &&& a.material == b.material && a.appearance.finish == b.appearance.finish
            &&& a.vertices@ == b.vertices@ && a.cage() == b.cage()
        },
        a.agrees(b) <==> {
            &&& a.origin_steps == b.origin_steps && a.size_cells == b.size_cells
            &&& a.material == b.material && a.appearance == b.appearance
            &&& a.vertices@ == b.vertices@ && a.cage() == b.cage()
        },
{
}

} // verus!
