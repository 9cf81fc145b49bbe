//! Rigid re-framing of document rows: quarter turns about the vertical and translations.

use vstd::prelude::*;

use super::doc::{
    pose_of, BearingDoc, BearingSocketDoc, ConstructionFrameDoc, CreationDocument, PartDoc,
    PoseDoc, RegionDoc,
};
use super::rows::{layer_docs_in, parent_in, pose_doc_in, shape_of_doc};
use crate::frame::ConstructionFrame;
use crate::grid::{
    fits, rotate_y_i32, turned, GridRotation, GridVec, Point, POSITION_TICKS_PER_GRID_UNIT,
    POSITION_TICKS_PER_HALF_GRID_UNIT,
};
use crate::parts::{JointHardware, JointKind, PistonMount};
use crate::region::{plane_at, planes_inside, stays_inside, CageVertex};
use crate::scalar::Triple;
use crate::exact::signs_are_those_of_values;

verus! {

/// A direction turned by quarter turns about the vertical axis.
pub open spec fn turned_triple(vector: Triple, yaw: u8) -> Triple {
    if yaw % 4 == 0 {
        vector
    } else if yaw % 4 == 1 {
        Triple { x: vector.z, y: vector.y, z: vector.x.opposite() }
    } else if yaw % 4 == 2 {
        Triple { x: vector.x.opposite(), y: vector.y, z: vector.z.opposite() }
    } else {
        Triple { x: vector.z.opposite(), y: vector.y, z: vector.x }
    }
}

/// Turns a direction by quarter turns about the vertical axis.
pub fn rotate_y_vec3(vector: Triple, yaw: u8) -> (rotated: Triple)
    ensures
        rotated == turned_triple(vector, yaw),
{
    let quarter: u8 = yaw % 4;
    if quarter == 0 {
        vector
    } else if quarter == 1 {
        Triple { x: vector.z, y: vector.y, z: vector.x.negated() }
    } else if quarter == 2 {
        Triple { x: vector.x.negated(), y: vector.y, z: vector.z.negated() }
    } else {
        Triple { x: vector.z.negated(), y: vector.y, z: vector.x }
    }
}

/// Opposite quarter turns undo each other.
pub proof fn opposite_turns_undo_each_other(vector: Triple)
    ensures
        turned_triple(turned_triple(vector, 1), 3) == vector,
        turned_triple(turned_triple(vector, 2), 2) == vector,
        turned_triple(turned_triple(vector, 3), 1) == vector,
{
    crate::scalar::negation_is_an_involution(vector.x);
    crate::scalar::negation_is_an_involution(vector.y);
    crate::scalar::negation_is_an_involution(vector.z);
}

/// A joint's hardware turned by quarter turns.
pub open spec fn turned_hardware(hardware: JointHardware, yaw: u8) -> JointHardware {
    match hardware {
        JointHardware::Piston {
            blocks,
            stages,
            mount: PistonMount::Side { mount_normal },
        } => JointHardware::Piston {
            blocks,
            stages,
            mount: PistonMount::Side { mount_normal: turned_triple(mount_normal, yaw) },
        },
        JointHardware::Linear { width, mount_normal, face } => JointHardware::Linear {
            width,
            mount_normal: turned_triple(mount_normal, yaw),
            face,
        },
        _ => hardware,
    }
}

/// Turns a joint's motion by quarter turns.
fn rotate_kind(kind: JointKind, yaw: u8) -> (rotated: JointKind)
    ensures
        rotated == (JointKind { hardware: turned_hardware(kind.hardware, yaw), ..kind }),
{
    let hardware: JointHardware = match kind.hardware {
        JointHardware::Piston { blocks, stages, mount } => match mount {
            PistonMount::Side { mount_normal } => JointHardware::Piston {
                blocks,
                stages,
                mount: PistonMount::Side { mount_normal: rotate_y_vec3(mount_normal, yaw) },
            },
            PistonMount::End => kind.hardware,
        },
        JointHardware::Linear { width, mount_normal, face } => JointHardware::Linear {
            width,
            mount_normal: rotate_y_vec3(mount_normal, yaw),
            face,
        },
        other => other,
    };
    JointKind { hardware, ..kind }
}

/// Planes seen from the other end of an extent.
pub open spec fn reflected(divisions: Seq<i32>, size: int) -> Seq<i32> {
    Seq::new(divisions.len(), |i: int| (size - divisions[divisions.len() - 1 - i]) as i32)
}

/// Whether reflected planes are representable.
pub open spec fn reflects(divisions: Seq<i32>, size: int) -> bool {
    forall|i: int|
        #![trigger divisions[i]]
        0 <= i < divisions.len() ==> i32::MIN <= size - divisions[i] <= i32::MAX
}

/// Planes seen from the other end of an extent.
pub fn reflected_divisions(divisions: &Vec<i32>, size: i32) -> (planes: Vec<i32>)
    requires
        reflects(divisions@, size as int),
    ensures
        planes@ == reflected(divisions@, size as int),
{
    let mut planes: Vec<i32> = Vec::new();
    let mut left: usize = divisions.len();
    while left > 0
        invariant
            left <= divisions@.len(),
            reflects(divisions@, size as int),
            planes@.len() == divisions@.len() - left,
            forall|i: int|
                #![trigger planes@[i]]
                0 <= i < planes@.len() ==> planes@[i] == size - divisions@[divisions@.len() - 1
                    - i],
        decreases left,
    {
        left -= 1;
        assert(i32::MIN <= size - divisions@[left as int] <= i32::MAX);
        planes.push(size - divisions[left]);
    }
    assert(planes@ =~= reflected(divisions@, size as int));
    planes
}

/// Reflecting twice gives the planes back, and reflected planes stay inside.
pub proof fn reflection_is_an_involution(divisions: Seq<i32>, size: int)
    requires
        planes_inside(divisions, size),
        0 < size <= i32::MAX,
    ensures
        planes_inside(reflected(divisions, size), size),
        reflects(divisions, size),
        reflected(reflected(divisions, size), size) == divisions,
{
    let planes = reflected(divisions, size);
    assert forall|i: int| #![trigger planes[i]] 0 <= i < planes.len() implies 0 < planes[i] < size
        && planes[i] == size - divisions[divisions.len() - 1 - i] by {
        assert(0 < divisions[divisions.len() - 1 - i] < size);
    }
    assert forall|i: int, j: int| #![trigger planes[i], planes[j]]
        0 <= i < j < planes.len() implies planes[i] < planes[j] by {
        assert(divisions[divisions.len() - 1 - j] < divisions[divisions.len() - 1 - i]);
    }
    assert forall|i: int| 0 <= i < divisions.len() implies reflected(planes, size)[i]
        == divisions[i] by {
        assert(planes[divisions.len() - 1 - i] == size - divisions[i]);
    }
    assert(reflected(planes, size) =~= divisions);
}

/// A point turned and then moved by half grid units.
pub open spec fn moved_point(point: Point, yaw: int, translation: GridVec) -> Point {
    let (x, y, z) = turned(point, yaw);
    (
        x + translation.x * POSITION_TICKS_PER_HALF_GRID_UNIT,
        y + translation.y * POSITION_TICKS_PER_HALF_GRID_UNIT,
        z + translation.z * POSITION_TICKS_PER_HALF_GRID_UNIT,
    )
}

/// Whether a point can be turned and moved.
pub open spec fn point_moves(point: Point, yaw: int, translation: GridVec) -> bool {
    &&& fits(turned(point, yaw))
    &&& fits(moved_point(point, yaw, translation))
    &&& fits(moved_point((0, 0, 0), 0, translation))
}

/// Turns a position and moves it by half grid units.
fn move_point(position: GridVec, yaw: u8, translation: GridVec) -> (moved: GridVec)
    requires
        point_moves(position.point(), yaw as int, translation),
    ensures
        moved.point() == moved_point(position.point(), yaw as int, translation),
{
    let rotated: GridVec = rotate_y_i32(position, yaw);
    GridVec {
        x: rotated.x + translation.x * POSITION_TICKS_PER_HALF_GRID_UNIT,
        y: rotated.y + translation.y * POSITION_TICKS_PER_HALF_GRID_UNIT,
        z: rotated.z + translation.z * POSITION_TICKS_PER_HALF_GRID_UNIT,
    }
}

/// The minimum corner of a region.
pub open spec fn low_corner(region: RegionDoc) -> Point {
    (
        region.origin_steps@[0] as int,
        region.origin_steps@[1] as int,
        region.origin_steps@[2] as int,
    )
}

/// The maximum corner of a region.
pub open spec fn high_corner(region: RegionDoc) -> Point {
    (
        region.origin_steps@[0] + region.size_cells@[0] * POSITION_TICKS_PER_GRID_UNIT,
        region.origin_steps@[1] + region.size_cells@[1] * POSITION_TICKS_PER_GRID_UNIT,
        region.origin_steps@[2] + region.size_cells@[2] * POSITION_TICKS_PER_GRID_UNIT,
    )
}

/// The lesser of two integers.
pub open spec fn low(a: int, b: int) -> int {
    if a <= b {
        a
    } else {
        b
    }
}

/// The distance between two integers.
pub open spec fn apart(a: int, b: int) -> int {
    if a <= b {
        b - a
    } else {
        a - b
    }
}

/// The largest plane index along an axis with this many inner planes.
pub open spec fn last_plane(divisions: Seq<i32>) -> int {
    if divisions.len() + 1 <= u16::MAX {
        divisions.len() as int + 1
    } else {
        u16::MAX as int
    }
}

/// Whether a vertex is another, turned with its region.
pub open spec fn vertex_turned(
    vertex: CageVertex,
    yaw: int,
    last_x: int,
    last_z: int,
    moved: CageVertex,
) -> bool {
    let (i, j, k) = (vertex.index@[0], vertex.index@[1], vertex.index@[2]);
    let (x, y, z) = (vertex.offset@[0], vertex.offset@[1], vertex.offset@[2]);
    let index = moved.index@;
    let offset = moved.offset@;
    if yaw % 4 == 0 {
        index[0] == i && index[1] == j && index[2] == k && offset[0] == x && offset[1] == y
            && offset[2] == z
    } else if yaw % 4 == 1 {
        index[0] == k && index[1] == j && index[2] == last_x - i && offset[0] == z && offset[1] == y
            && offset[2] == -x
    } else if yaw % 4 == 2 {
        index[0] == last_x - i && index[1] == j && index[2] == last_z - k && offset[0] == -x
            && offset[1] == y && offset[2] == -z
    } else {
        index[0] == last_z - k && index[1] == j && index[2] == i && offset[0] == -z && offset[1]
            == y && offset[2] == x
    }
}

/// Whether a vertex can be turned with its region.
pub open spec fn vertex_turns(vertex: CageVertex, yaw: int, last_x: int, last_z: int) -> bool {
    let turns_x = vertex.index@[0] <= last_x && vertex.offset@[0] > i16::MIN;
    let turns_z = vertex.index@[2] <= last_z && vertex.offset@[2] > i16::MIN;
    &&& (yaw % 4 == 1 || yaw % 4 == 2) ==> turns_x
    &&& (yaw % 4 == 2 || yaw % 4 == 3) ==> turns_z
}

/// Whether a region can be turned and moved.
pub open spec fn region_moves(region: RegionDoc, yaw: int, translation: GridVec) -> bool {
    let (lx, ly, lz) = low_corner(region);
    let (hx, hy, hz) = high_corner(region);
    &&& fits((hx - lx, hy - ly, hz - lz))
    &&& fits((hx, hy, hz))
    &&& point_moves((lx, ly, lz), yaw, translation)
    &&& point_moves((hx, ly, lz), yaw, translation)
    &&& point_moves((lx, hy, lz), yaw, translation)
    &&& point_moves((lx, ly, hz), yaw, translation)
    &&& point_moves((hx, hy, hz), yaw, translation)
    &&& fits((apart(lx, hx), apart(ly, hy), apart(lz, hz)))
    &&& (yaw % 4 == 1 || yaw % 4 == 2) ==> reflects(
        region.divisions_x@,
        region.size_cells@[0] as int,
    )
    &&& (yaw % 4 == 2 || yaw % 4 == 3) ==> reflects(
        region.divisions_z@,
        region.size_cells@[2] as int,
    )
    &&& forall|i: int|
        #![trigger region.vertices@[i]]
        0 <= i < region.vertices@.len() ==> vertex_turns(
            region.vertices@[i],
            yaw,
            last_plane(region.divisions_x@),
            last_plane(region.divisions_z@),
        )
}

/// Whether a region is another, turned and moved: its box is the turned box,
/// its planes and vertices the turned ones.
pub open spec fn region_turned(
    before: RegionDoc,
    yaw: int,
    translation: GridVec,
    after: RegionDoc,
) -> bool {
    let (ax, ay, az) = moved_point(low_corner(before), yaw, translation);
    let (bx, by, bz) = moved_point(high_corner(before), yaw, translation);
    let dx = before.divisions_x@;
    let dz = before.divisions_z@;
    let sx = before.size_cells@[0] as int;
    let sz = before.size_cells@[2] as int;
    &&& low_corner(after) == (low(ax, bx), low(ay, by), low(az, bz))
    &&& after.size_cells@[0] * POSITION_TICKS_PER_GRID_UNIT == apart(ax, bx)
    &&& after.size_cells@[1] * POSITION_TICKS_PER_GRID_UNIT == apart(ay, by)
    &&& after.size_cells@[2] * POSITION_TICKS_PER_GRID_UNIT == apart(az, bz)
    &&& after.divisions_y@ == before.divisions_y@
    &&& after.divisions_x@ == if yaw % 4 == 0 {
        dx
    } else if yaw % 4 == 1 {
        dz
    } else if yaw % 4 == 2 {
        reflected(dx, sx)
    } else {
        reflected(dz, sz)
    }
    &&& after.divisions_z@ == if yaw % 4 == 0 {
        dz
    } else if yaw % 4 == 1 {
        reflected(dx, sx)
    } else if yaw % 4 == 2 {
        reflected(dz, sz)
    } else {
        dx
    }
    &&& after.vertices@.len() == before.vertices@.len()
    &&& forall|i: int|
        #![trigger after.vertices@[i]]
        0 <= i < after.vertices@.len() ==> vertex_turned(
            before.vertices@[i],
            yaw,
            last_plane(dx),
            last_plane(dz),
            after.vertices@[i],
        )
    &&& after.material == before.material
    &&& after.appearance == before.appearance
}

/// The largest plane index along an axis.
fn count_last(divisions: &Vec<i32>) -> (last: u16)
    ensures
        last == last_plane(divisions@),
{
    if divisions.len() < 65535 {
        (divisions.len() + 1) as u16
    } else {
        65535
    }
}

/// A copy of planes.
fn copy_planes(divisions: &Vec<i32>) -> (planes: Vec<i32>)
    ensures
        planes@ == divisions@,
{
    let mut planes: Vec<i32> = Vec::new();
    let mut i: usize = 0;
    while i < divisions.len()
        invariant
            i <= divisions@.len(),
            planes@ =~= divisions@.take(i as int),
        decreases divisions@.len() - i,
    {
        planes.push(divisions[i]);
        i += 1;
    }
    planes
}

/// Turns a vertex with its region.
fn turn_vertex(vertex: CageVertex, yaw: u8, last_x: u16, last_z: u16) -> (moved: CageVertex)
    requires
        vertex_turns(vertex, yaw as int, last_x as int, last_z as int),
    ensures
        vertex_turned(vertex, yaw as int, last_x as int, last_z as int, moved),
{
    let quarter: u8 = yaw % 4;
    let i: u16 = vertex.index[0];
    let j: u16 = vertex.index[1];
    let k: u16 = vertex.index[2];
    let x: i16 = vertex.offset[0];
    let y: i16 = vertex.offset[1];
    let z: i16 = vertex.offset[2];
    if quarter == 0 {
        CageVertex { index: [i, j, k], offset: [x, y, z] }
    } else if quarter == 1 {
        CageVertex { index: [k, j, last_x - i], offset: [z, y, -x] }
    } else if quarter == 2 {
        CageVertex { index: [last_x - i, j, last_z - k], offset: [-x, y, -z] }
    } else {
        CageVertex { index: [last_z - k, j, i], offset: [-z, y, x] }
    }
}

/// The box around five moved corners is the box around the two far ones.
proof fn lemma_corner_box(lowest: Point, highest: Point, yaw: int, translation: GridVec)
    ensures
        ({
            let (lx, ly, lz) = lowest;
            let (hx, hy, hz) = highest;
            let a = moved_point((lx, ly, lz), yaw, translation);
            let b = moved_point((hx, ly, lz), yaw, translation);
            let c = moved_point((lx, hy, lz), yaw, translation);
            let d = moved_point((lx, ly, hz), yaw, translation);
            let e = moved_point((hx, hy, hz), yaw, translation);
            &&& low(low(low(low(a.0, b.0), c.0), d.0), e.0) == low(a.0, e.0)
            &&& low(low(low(low(a.1, b.1), c.1), d.1), e.1) == low(a.1, e.1)
            &&& low(low(low(low(a.2, b.2), c.2), d.2), e.2) == low(a.2, e.2)
            &&& high(high(high(high(a.0, b.0), c.0), d.0), e.0) == low(a.0, e.0) + apart(a.0, e.0)
            &&& high(high(high(high(a.1, b.1), c.1), d.1), e.1) == low(a.1, e.1) + apart(a.1, e.1)
            &&& high(high(high(high(a.2, b.2), c.2), d.2), e.2) == low(a.2, e.2) + apart(a.2, e.2)
        }),
{
}

/// The greater of two integers.
spec fn high(a: int, b: int) -> int {
    if a >= b {
        a
    } else {
        b
    }
}

/// A box keeps whole numbers of cells when it is turned.
proof fn lemma_whole_cells(region: RegionDoc, yaw: int, translation: GridVec)
    ensures
        ({
            let a = moved_point(low_corner(region), yaw, translation);
            let e = moved_point(high_corner(region), yaw, translation);
            &&& apart(a.0, e.0) % 100 == 0
            &&& apart(a.1, e.1) % 100 == 0
            &&& apart(a.2, e.2) % 100 == 0
        }),
{
    let a = moved_point(low_corner(region), yaw, translation);
    let e = moved_point(high_corner(region), yaw, translation);
    let sx = region.size_cells@[0] as int;
    let sy = region.size_cells@[1] as int;
    let sz = region.size_cells@[2] as int;
    assert((100 * sx) % 100 == 0 && (100 * (-sx)) % 100 == 0);
    assert((100 * sy) % 100 == 0 && (100 * (-sy)) % 100 == 0);
    assert((100 * sz) % 100 == 0 && (100 * (-sz)) % 100 == 0);
}

/// Turns a region by quarter turns and moves it by half grid units.
pub fn transform_region_doc(region: RegionDoc, yaw: u8, translation: GridVec) -> (moved: RegionDoc)
    requires
        region_moves(region, yaw as int, translation),
    ensures
        region_turned(region, yaw as int, translation, moved),
{
    let origin: GridVec = GridVec::from_array(region.origin_steps);
    let size: GridVec = GridVec::from_array(region.size_cells);
    let maximum = GridVec {
        x: origin.x + size.x * POSITION_TICKS_PER_GRID_UNIT,
        y: origin.y + size.y * POSITION_TICKS_PER_GRID_UNIT,
        z: origin.z + size.z * POSITION_TICKS_PER_GRID_UNIT,
    };
    let a: GridVec = move_point(origin, yaw, translation);
    let b: GridVec = move_point(
        GridVec { x: maximum.x, y: origin.y, z: origin.z },
        yaw,
        translation,
    );
    let c: GridVec = move_point(
        GridVec { x: origin.x, y: maximum.y, z: origin.z },
        yaw,
        translation,
    );
    let d: GridVec = move_point(
        GridVec { x: origin.x, y: origin.y, z: maximum.z },
        yaw,
        translation,
    );
    let e: GridVec = move_point(maximum, yaw, translation);
    let least: GridVec = a.least(b).least(c).least(d).least(e);
    let greatest: GridVec = a.greatest(b).greatest(c).greatest(d).greatest(e);
    proof {
        lemma_corner_box(low_corner(region), high_corner(region), yaw as int, translation);
        lemma_whole_cells(region, yaw as int, translation);
    }
    let size_cells: [i32; 3] = [
        (greatest.x - least.x) / POSITION_TICKS_PER_GRID_UNIT,
        (greatest.y - least.y) / POSITION_TICKS_PER_GRID_UNIT,
        (greatest.z - least.z) / POSITION_TICKS_PER_GRID_UNIT,
    ];
    let last_x: u16 = count_last(&region.divisions_x);
    let last_z: u16 = count_last(&region.divisions_z);
    let mut vertices: Vec<CageVertex> = Vec::new();
    let mut i: usize = 0;
    while i < region.vertices.len()
        invariant
            i <= region.vertices@.len(),
            vertices@.len() == i,
            last_x == last_plane(region.divisions_x@),
            last_z == last_plane(region.divisions_z@),
            forall|k: int|
                #![trigger region.vertices@[k]]
                0 <= k < region.vertices@.len() ==> vertex_turns(
                    region.vertices@[k],
                    yaw as int,
                    last_x as int,
                    last_z as int,
                ),
            forall|k: int|
                #![trigger vertices@[k]]
                0 <= k < i ==> vertex_turned(
                    region.vertices@[k],
                    yaw as int,
                    last_x as int,
                    last_z as int,
                    vertices@[k],
                ),
        decreases region.vertices@.len() - i,
    {
        vertices.push(turn_vertex(region.vertices[i], yaw, last_x, last_z));
        i += 1;
    }
    let quarter: u8 = yaw % 4;
    let divisions_x: Vec<i32> = if quarter == 0 {
        copy_planes(&region.divisions_x)
    } else if quarter == 1 {
        copy_planes(&region.divisions_z)
    } else if quarter == 2 {
        reflected_divisions(&region.divisions_x, size.x)
    } else {
        reflected_divisions(&region.divisions_z, size.z)
    };
    let divisions_z: Vec<i32> = if quarter == 0 {
        copy_planes(&region.divisions_z)
    } else if quarter == 1 {
        reflected_divisions(&region.divisions_x, size.x)
    } else if quarter == 2 {
        reflected_divisions(&region.divisions_z, size.z)
    } else {
        copy_planes(&region.divisions_x)
    };
    RegionDoc {
        origin_steps: least.to_array(),
        size_cells,
        material: region.material,
        appearance: region.appearance,
        divisions_x,
        divisions_y: copy_planes(&region.divisions_y),
        divisions_z,
        vertices,
    }
}

/// Whether a region's row describes a valid region: a positive extent, planes
/// inside it, and no vertex outside the box.
pub open spec fn region_doc_valid(doc: RegionDoc) -> bool {
    let sx = doc.size_cells@[0] as int;
    let sy = doc.size_cells@[1] as int;
    let sz = doc.size_cells@[2] as int;
    &&& sx > 0 && sy > 0 && sz > 0
    &&& planes_inside(doc.divisions_x@, sx)
    &&& planes_inside(doc.divisions_y@, sy)
    &&& planes_inside(doc.divisions_z@, sz)
    &&& forall|i: int|
        #![trigger doc.vertices@[i]]
        0 <= i < doc.vertices@.len() ==> vertex_doc_valid(doc, doc.vertices@[i])
}

/// Whether a vertex names planes of the cage and stays inside the box.
pub open spec fn vertex_doc_valid(doc: RegionDoc, vertex: CageVertex) -> bool {
    let index = vertex.index@;
    let offset = vertex.offset@;
    &&& index[0] <= doc.divisions_x@.len() + 1
    &&& index[1] <= doc.divisions_y@.len() + 1
    &&& index[2] <= doc.divisions_z@.len() + 1
    &&& stays_inside(doc.divisions_x@, doc.size_cells@[0] as int, index[0], offset[0])
    &&& stays_inside(doc.divisions_y@, doc.size_cells@[1] as int, index[1], offset[1])
    &&& stays_inside(doc.divisions_z@, doc.size_cells@[2] as int, index[2], offset[2])
}

/// A plane seen from the other end of its extent.
proof fn lemma_reflected_plane(divisions: Seq<i32>, size: int, index: int)
    requires
        planes_inside(divisions, size),
        0 < size <= i32::MAX,
        0 <= index <= divisions.len() + 1,
    ensures
        plane_at(reflected(divisions, size), size, divisions.len() + 1 - index) == size - plane_at(
            divisions,
            size,
            index,
        ),
{
    let planes = reflected(divisions, size);
    if 0 < index <= divisions.len() {
        let at = divisions.len() - index;
        assert(0 < divisions[index - 1] < size);
        assert(planes[at] == size - divisions[divisions.len() - 1 - at]);
    }
}

/// A vertex seen from the other end of an axis stays inside the box.
proof fn lemma_reflected_vertex(
    divisions: Seq<i32>,
    size: int,
    index: u16,
    offset: i16,
    moved_index: u16,
    moved_offset: i16,
)
    requires
        planes_inside(divisions, size),
        0 < size <= i32::MAX,
        index <= divisions.len() + 1,
        stays_inside(divisions, size, index, offset),
        moved_index == divisions.len() + 1 - index,
        moved_offset == -offset,
    ensures
        stays_inside(reflected(divisions, size), size, moved_index, moved_offset),
{
    lemma_reflected_plane(divisions, size, index as int);
    let plane = plane_at(divisions, size, index as int);
    assert((size - plane) * 100 == size * 100 - plane * 100) by (nonlinear_arith);
}

/// Turning and moving a region keeps it a valid region.
pub proof fn turned_regions_stay_valid(
    before: RegionDoc,
    yaw: u8,
    translation: GridVec,
    after: RegionDoc,
)
    requires
        region_doc_valid(before),
        region_turned(before, yaw as int, translation, after),
        before.divisions_x@.len() < u16::MAX,
        before.divisions_z@.len() < u16::MAX,
    ensures
        region_doc_valid(after),
{
    let dx = before.divisions_x@;
    let dz = before.divisions_z@;
    let sx = before.size_cells@[0] as int;
    let sy = before.size_cells@[1] as int;
    let sz = before.size_cells@[2] as int;
    let quarter = yaw as int % 4;
    reflection_is_an_involution(dx, sx);
    reflection_is_an_involution(dz, sz);
    assert(after.size_cells@[1] == sy);
    assert(after.size_cells@[0] == if quarter == 0 || quarter == 2 {
        sx
    } else {
        sz
    });
    assert(after.size_cells@[2] == if quarter == 0 || quarter == 2 {
        sz
    } else {
        sx
    });
    assert forall|i: int| #![trigger after.vertices@[i]]
        0 <= i < after.vertices@.len() implies vertex_doc_valid(after, after.vertices@[i]) by {
        let vertex = before.vertices@[i];
        let moved = after.vertices@[i];
        assert(vertex_doc_valid(before, vertex));
        assert(vertex_turned(vertex, yaw as int, last_plane(dx), last_plane(dz), moved));
        let index = vertex.index@;
        let offset = vertex.offset@;
        if quarter == 1 {
            lemma_reflected_vertex(
                dx,
                sx,
                index[0],
                offset[0],
                moved.index@[2],
                moved.offset@[2],
            );
        } else if quarter == 2 {
            lemma_reflected_vertex(
                dx,
                sx,
                index[0],
                offset[0],
                moved.index@[0],
                moved.offset@[0],
            );
            lemma_reflected_vertex(
                dz,
                sz,
                index[2],
                offset[2],
                moved.index@[2],
                moved.offset@[2],
            );
        } else if quarter == 3 {
            lemma_reflected_vertex(
                dz,
                sz,
                index[2],
                offset[2],
                moved.index@[0],
                moved.offset@[0],
            );
        }
    }
}

/// Where a quarter turn and a translation take what only geometry can move.
#[derive(Debug)]
pub struct CardinalMotion {
    /// The turned orientation of every part.
    pub rotations: Vec<GridRotation>,
    /// The moved transform of every grid.
    pub frames: Vec<ConstructionFrameDoc>,
    /// The moved anchor of every joint.
    pub bearing_anchors: Vec<Triple>,
    /// The moved anchor of every socket.
    pub socket_anchors: Vec<Triple>,
}

/// The part of a row, at another pose.
pub open spec fn reposed(before: PartDoc, pose: PoseDoc, after: PartDoc) -> bool {
    &&& shape_of_doc(after) == shape_of_doc(before)
    &&& layer_docs_in(after) == layer_docs_in(before)
    &&& parent_in(after) == parent_in(before)
    &&& pose_doc_in(after) == pose
}

/// Puts a part's row at another pose.
fn with_pose(part: PartDoc, pose: PoseDoc) -> (moved: PartDoc)
    ensures
        reposed(part, pose, moved),
{
    match part {
        PartDoc::Cuboid { dimensions, pose: _, material, appearance, layers } => PartDoc::Cuboid {
            dimensions,
            pose,
            material,
            appearance,
            layers,
        },
        PartDoc::Cylinder {
            outer_diameter,
            inner_diameter,
            length_units,
            sweep_degrees,
            pose: _,
            material,
            appearance,
            layers,
        } => PartDoc::Cylinder {
            outer_diameter,
            inner_diameter,
            length_units,
            sweep_degrees,
            pose,
            material,
            appearance,
            layers,
        },
        PartDoc::PipeBend {
            outer_diameter,
            inner_diameter,
            span_blocks,
            pose: _,
            material,
            appearance,
        } => PartDoc::PipeBend {
            outer_diameter,
            inner_diameter,
            span_blocks,
            pose,
            material,
            appearance,
        },
        PartDoc::PipeJunction {
            outer_diameter,
            inner_diameter,
            arms,
            pose: _,
            material,
            appearance,
        } => PartDoc::PipeJunction {
            outer_diameter,
            inner_diameter,
            arms,
            pose,
            material,
            appearance,
        },
        PartDoc::Controller { pose: _ } => PartDoc::Controller { pose },
        PartDoc::Engine { kind, pose: _ } => PartDoc::Engine { kind, pose },
        PartDoc::Transmission { parent, pose: _ } => PartDoc::Transmission { parent, pose },
        PartDoc::Servo { pose: _ } => PartDoc::Servo { pose },
        PartDoc::Seat { pose: _ } => PartDoc::Seat { pose },
        PartDoc::Dial { size, pose: _ } => PartDoc::Dial { size, pose },
        PartDoc::Button { size, pose: _ } => PartDoc::Button { size, pose },
        PartDoc::Input { pose: _ } => PartDoc::Input { pose },
        PartDoc::DimensionLink { id, pose: _ } => PartDoc::DimensionLink { id, pose },
    }
}

/// The pose that a part's row holds.
pub(crate) fn pose_in(part: &PartDoc) -> (pose: PoseDoc)
    ensures
        pose == pose_doc_in(*part),
{
    match part {
        PartDoc::Cuboid { pose, .. } => *pose,
        PartDoc::Cylinder { pose, .. } => *pose,
        PartDoc::PipeBend { pose, .. } => *pose,
        PartDoc::PipeJunction { pose, .. } => *pose,
        PartDoc::Controller { pose } => *pose,
        PartDoc::Engine { pose, .. } => *pose,
        PartDoc::Transmission { pose, .. } => *pose,
        PartDoc::Servo { pose } => *pose,
        PartDoc::Seat { pose } => *pose,
        PartDoc::Dial { pose, .. } => *pose,
        PartDoc::Button { pose, .. } => *pose,
        PartDoc::Input { pose } => *pose,
        PartDoc::DimensionLink { pose, .. } => *pose,
    }
}

/// Whether a part's row is another, turned and moved.
pub open spec fn part_turned(
    before: PartDoc,
    yaw: int,
    translation: GridVec,
    rotation: GridRotation,
    after: PartDoc,
) -> bool {
    &&& reposed(before, pose_doc_in(after), after)
    &&& pose_of(pose_doc_in(after)).translation_ticks.point() == moved_point(
        pose_of(pose_doc_in(before)).translation_ticks.point(),
        yaw,
        translation,
    )
    &&& pose_of(pose_doc_in(after)).rotation == rotation
}

/// A joint's row turned, with its anchor moved.
pub open spec fn bearing_turned(before: BearingDoc, yaw: u8, anchor: Triple) -> BearingDoc {
    BearingDoc {
        anchor,
        axis: turned_triple(before.axis, yaw),
        kind: JointKind { hardware: turned_hardware(before.kind.hardware, yaw), ..before.kind },
        ..before
    }
}

/// A socket's row turned, with its anchor moved.
pub open spec fn socket_turned(before: BearingSocketDoc, yaw: u8, anchor: Triple) -> BearingSocketDoc {
    BearingSocketDoc {
        anchor,
        axis: turned_triple(before.axis, yaw),
        kind: JointKind { hardware: turned_hardware(before.kind.hardware, yaw), ..before.kind },
        ..before
    }
}

/// A grid's row moved; the default grid stays.
pub open spec fn frame_turned(
    before: ConstructionFrameDoc,
    moved: ConstructionFrameDoc,
) -> ConstructionFrameDoc {
    if frame_is_default(before) {
        before
    } else {
        moved
    }
}

/// Whether a grid's row is the default grid's, by value.
pub open spec fn frame_is_default(frame: ConstructionFrameDoc) -> bool {
    (ConstructionFrame {
        translation: frame.translation,
        rotation: frame.rotation,
    }).same_value(ConstructionFrame::identity())
}

impl CreationDocument {
    /// Whether the rows can be turned and moved.
    pub open spec fn moves(&self, yaw: u8, translation: GridVec, motion: CardinalMotion) -> bool {
        &&& motion.rotations@.len() == self.parts@.len()
        &&& motion.frames@.len() == self.frames@.len()
        &&& motion.bearing_anchors@.len() == self.bearings@.len()
        &&& motion.socket_anchors@.len() == self.sockets@.len()
        &&& forall|i: int|
            #![trigger self.parts@[i]]
            0 <= i < self.parts@.len() ==> point_moves(
                pose_of(pose_doc_in(self.parts@[i])).translation_ticks.point(),
                yaw as int,
                translation,
            )
        &&& forall|i: int|
            #![trigger self.regions@[i]]
            0 <= i < self.regions@.len() ==> region_moves(
                self.regions@[i],
                yaw as int,
                translation,
            )
    }

    /// Whether `after` is this document, turned and moved.
    pub open spec fn turned_into(
        &self,
        yaw: u8,
        translation: GridVec,
        motion: CardinalMotion,
        after: &Self,
    ) -> bool {
        &&& after.parts@.len() == self.parts@.len()
        &&& forall|i: int|
            #![trigger after.parts@[i]]
            0 <= i < after.parts@.len() ==> part_turned(
                self.parts@[i],
                yaw as int,
                translation,
                motion.rotations@[i],
                after.parts@[i],
            )
        &&& after.frames@.len() == self.frames@.len()
        &&& forall|i: int|
            #![trigger after.frames@[i]]
            0 <= i < after.frames@.len() ==> after.frames@[i] == frame_turned(
                self.frames@[i],
                motion.frames@[i],
            )
        &&& after.bearings@.len() == self.bearings@.len()
        &&& forall|i: int|
            #![trigger after.bearings@[i]]
            0 <= i < after.bearings@.len() ==> after.bearings@[i] == bearing_turned(
                self.bearings@[i],
                yaw,
                motion.bearing_anchors@[i],
            )
        &&& after.sockets@.len() == self.sockets@.len()
        &&& forall|i: int|
            #![trigger after.sockets@[i]]
            0 <= i < after.sockets@.len() ==> after.sockets@[i] == socket_turned(
                self.sockets@[i],
                yaw,
                motion.socket_anchors@[i],
            )
        &&& after.regions@.len() == self.regions@.len()
        &&& forall|i: int|
            #![trigger after.regions@[i]]
            0 <= i < after.regions@.len() ==> region_turned(
                self.regions@[i],
                yaw as int,
                translation,
                after.regions@[i],
            )
        &&& *after == (CreationDocument {
            parts: after.parts,
            frames: after.frames,
            bearings: after.bearings,
            sockets: after.sockets,
            regions: after.regions,
            ..*self
        })
    }

    /// Rotates the authored construction around the world origin and then translates it.
    ///
    /// Translation uses half-grid units so shape-region cage data remains exact.
    pub fn transform_cardinal(&mut self, yaw: u8, translation: GridVec, motion: &CardinalMotion)
        requires
            old(self).moves(yaw, translation, *motion),
        ensures
            old(self).turned_into(yaw, translation, *motion, final(self)),
    {
        let ghost before = *self;
        let mut placed: Vec<PartDoc> = Vec::new();
        std::mem::swap(&mut placed, &mut self.parts);
        let mut claimed: Vec<RegionDoc> = Vec::new();
        std::mem::swap(&mut claimed, &mut self.regions);
        let mut parts: Vec<PartDoc> = Vec::new();
        for part in iter: placed
            invariant
                iter.seq() == before.parts@,
                before.moves(yaw, translation, *motion),
                parts@.len() == iter.index(),
                forall|i: int|
                    #![trigger parts@[i]]
                    0 <= i < parts@.len() ==> part_turned(
                        before.parts@[i],
                        yaw as int,
                        translation,
                        motion.rotations@[i],
                        parts@[i],
                    ),
        {
            let at: usize = parts.len();
            assert(part == before.parts@[at as int]);
            let pose: PoseDoc = pose_in(&part);
            let place: GridVec = move_point(
                GridVec::from_array(pose.translation_ticks),
                yaw,
                translation,
            );
            let rotation: GridRotation = motion.rotations[at];
            let fresh = PoseDoc {
                translation_ticks: place.to_array(),
                rotation: [rotation.x, rotation.y, rotation.z],
            };
            parts.push(with_pose(part, fresh));
        }
        let mut frames: Vec<ConstructionFrameDoc> = Vec::new();
        let mut f: usize = 0;
        while f < self.frames.len()
            invariant
                before.moves(yaw, translation, *motion),
                self.frames == before.frames,
                f <= before.frames@.len(),
                frames@.len() == f,
                forall|i: int|
                    #![trigger frames@[i]]
                    0 <= i < f ==> frames@[i] == frame_turned(
                        before.frames@[i],
                        motion.frames@[i],
                    ),
            decreases before.frames@.len() - f,
        {
            let frame: ConstructionFrameDoc = self.frames[f];
            let current = ConstructionFrame {
                translation: frame.translation,
                rotation: frame.rotation,
            };
            if current.equal(ConstructionFrame::identity()) {
                frames.push(frame);
            } else {
                frames.push(motion.frames[f]);
            }
            f += 1;
        }
        let mut bearings: Vec<BearingDoc> = Vec::new();
        let mut b: usize = 0;
        while b < self.bearings.len()
            invariant
                before.moves(yaw, translation, *motion),
                self.bearings == before.bearings,
                b <= before.bearings@.len(),
                bearings@.len() == b,
                forall|i: int|
                    #![trigger bearings@[i]]
                    0 <= i < b ==> bearings@[i] == bearing_turned(
                        before.bearings@[i],
                        yaw,
                        motion.bearing_anchors@[i],
                    ),
            decreases before.bearings@.len() - b,
        {
            let bearing: BearingDoc = self.bearings[b];
            bearings.push(
                BearingDoc {
                    anchor: motion.bearing_anchors[b],
                    axis: rotate_y_vec3(bearing.axis, yaw),
                    kind: rotate_kind(bearing.kind, yaw),
                    ..bearing
                },
            );
            b += 1;
        }
        let mut sockets: Vec<BearingSocketDoc> = Vec::new();
        let mut s: usize = 0;
        while s < self.sockets.len()
            invariant
                before.moves(yaw, translation, *motion),
                self.sockets == before.sockets,
                s <= before.sockets@.len(),
                sockets@.len() == s,
                forall|i: int|
                    #![trigger sockets@[i]]
                    0 <= i < s ==> sockets@[i] == socket_turned(
                        before.sockets@[i],
                        yaw,
                        motion.socket_anchors@[i],
                    ),
            decreases before.sockets@.len() - s,
        {
            let socket: BearingSocketDoc = self.sockets[s];
            sockets.push(
                BearingSocketDoc {
                    anchor: motion.socket_anchors[s],
                    axis: rotate_y_vec3(socket.axis, yaw),
                    kind: rotate_kind(socket.kind, yaw),
                    ..socket
                },
            );
            s += 1;
        }
        let mut regions: Vec<RegionDoc> = Vec::new();
        for region in iter: claimed
            invariant
                iter.seq() == before.regions@,
                before.moves(yaw, translation, *motion),
                regions@.len() == iter.index(),
                forall|i: int|
                    #![trigger regions@[i]]
                    0 <= i < regions@.len() ==> region_turned(
                        before.regions@[i],
                        yaw as int,
                        translation,
                        regions@[i],
                    ),
        {
            assert(region == before.regions@[regions@.len() as int]);
            regions.push(transform_region_doc(region, yaw, translation));
        }
        self.parts = parts;
        self.frames = frames;
        self.bearings = bearings;
        self.sockets = sockets;
        self.regions = regions;
    }
}

/// A direction turns as positions do: what its components are worth after the
/// turn is what the turned point of their worths is.
pub proof fn directions_turn_as_points_do(vector: Triple, yaw: u8)
    requires
        vector.finite(),
    ensures
        turned_triple(vector, yaw).finite(),
        turned_triple(vector, yaw).units() == turned(vector.units(), yaw as int),
{
    signs_are_those_of_values(vector.x);
    signs_are_those_of_values(vector.z);
}

/// Moving is by half grid units: twice what a point moves by beyond its turn is
/// the translation in whole units of a hundred ticks.
pub proof fn points_move_by_half_units(point: Point, yaw: int, translation: GridVec)
    ensures
        ({
            let from = turned(point, yaw);
            let to = moved_point(point, yaw, translation);
            &&& 2 * (to.0 - from.0) == translation.x * 100
            &&& 2 * (to.1 - from.1) == translation.y * 100
            &&& 2 * (to.2 - from.2) == translation.z * 100
        }),
{
}

/// Whether a region's box holds a point, its sides too.
pub open spec fn box_contains(region: RegionDoc, point: Point) -> bool {
    let origin = region.origin_steps@;
    let size = region.size_cells@;
    &&& origin[0] <= point.0 <= origin[0] + size[0] * 100
    &&& origin[1] <= point.1 <= origin[1] + size[1] * 100
    &&& origin[2] <= point.2 <= origin[2] + size[2] * 100
}

/// A turned region holds the turned points of those it held, and no others.
pub proof fn turned_boxes_hold_the_turned_points(
    before: RegionDoc,
    yaw: u8,
    translation: GridVec,
    after: RegionDoc,
    point: Point,
)
    requires
        region_doc_valid(before),
        region_turned(before, yaw as int, translation, after),
    ensures
        box_contains(before, point) <==> box_contains(
            after,
            moved_point(point, yaw as int, translation),
        ),
{
}

/// Where a vertex of a region's cage stands: at the crossing of its planes, and
/// off it by its offset.
pub open spec fn cage_point(region: RegionDoc, vertex: CageVertex) -> Point {
    let origin = region.origin_steps@;
    let size = region.size_cells@;
    (
        origin[0] + plane_at(region.divisions_x@, size[0] as int, vertex.index@[0] as int) * 100
            + vertex.offset@[0],
        origin[1] + plane_at(region.divisions_y@, size[1] as int, vertex.index@[1] as int) * 100
            + vertex.offset@[1],
        origin[2] + plane_at(region.divisions_z@, size[2] as int, vertex.index@[2] as int) * 100
            + vertex.offset@[2],
    )
}

/// The cage turns as points do: each crossing of planes, with whatever offset,
/// stands after the turn where its point is taken.
pub proof fn turned_cages_stand_at_the_turned_points(
    before: RegionDoc,
    yaw: u8,
    translation: GridVec,
    after: RegionDoc,
    vertex: CageVertex,
    moved: CageVertex,
)
    requires
        region_doc_valid(before),
        region_turned(before, yaw as int, translation, after),
        before.divisions_x@.len() < u16::MAX,
        before.divisions_z@.len() < u16::MAX,
        vertex.index@[0] <= before.divisions_x@.len() + 1,
        vertex.index@[2] <= before.divisions_z@.len() + 1,
        vertex_turned(
            vertex,
            yaw as int,
            last_plane(before.divisions_x@),
            last_plane(before.divisions_z@),
            moved,
        ),
    ensures
        cage_point(after, moved) == moved_point(
            cage_point(before, vertex),
            yaw as int,
            translation,
        ),
{
    lemma_reflected_plane(
        before.divisions_x@,
        before.size_cells@[0] as int,
        vertex.index@[0] as int,
    );
    lemma_reflected_plane(
        before.divisions_z@,
        before.size_cells@[2] as int,
        vertex.index@[2] as int,
    );
}

/// The vertices of a region stand after its turn where their points are taken,
/// and everything else about the region stays.
pub proof fn turned_regions_carry_their_vertices(
    before: RegionDoc,
    yaw: u8,
    translation: GridVec,
    after: RegionDoc,
    i: int,
)
    requires
        region_doc_valid(before),
        region_turned(before, yaw as int, translation, after),
        before.divisions_x@.len() < u16::MAX,
        before.divisions_z@.len() < u16::MAX,
        0 <= i < before.vertices@.len(),
    ensures
        after.vertices@.len() == before.vertices@.len(),
        cage_point(after, after.vertices@[i]) == moved_point(
            cage_point(before, before.vertices@[i]),
            yaw as int,
            translation,
        ),
        after.material == before.material,
        after.appearance == before.appearance,
{
    assert(vertex_doc_valid(before, before.vertices@[i]));
    turned_cages_stand_at_the_turned_points(
        before,
        yaw,
        translation,
        after,
        before.vertices@[i],
        after.vertices@[i],
    );
}

/// The direction that joints on a side mount face away from.
pub open spec fn mount_direction(hardware: JointHardware) -> Option<Triple> {
    match hardware {
        JointHardware::Piston { mount: PistonMount::Side { mount_normal }, .. } => Some(
            mount_normal,
        ),
        JointHardware::Linear { mount_normal, .. } => Some(mount_normal),
        _ => None,
    }
}

/// Whether two joints are of one kind, up to the direction they are mounted in.
pub open spec fn same_hardware(a: JointHardware, b: JointHardware) -> bool {
    match (a, b) {
        (JointHardware::Rotational, JointHardware::Rotational) => true,
        (JointHardware::Suspension, JointHardware::Suspension) => true,
        (
            JointHardware::Piston { blocks: m, stages: s, mount: p },
            JointHardware::Piston { blocks: n, stages: t, mount: q },
        ) => m == n && s == t && (p is Side <==> q is Side),
        (
            JointHardware::Linear { width: v, face: f, .. },
            JointHardware::Linear { width: w, face: g, .. },
        ) => v == w && f == g,
        _ => false,
    }
}

/// Joints and rings turn with their creation: axes and mounting directions turn
/// as points do, anchors are the moved ones, and what a joint is and what it
/// sits on stay.
pub proof fn joints_turn_with_their_creation(
    before: &CreationDocument,
    yaw: u8,
    translation: GridVec,
    motion: CardinalMotion,
    after: &CreationDocument,
    i: int,
)
    requires
        before.turned_into(yaw, translation, motion, after),
    ensures
        0 <= i < before.bearings@.len() ==> {
            let was = before.bearings@[i];
            let now = after.bearings@[i];
            &&& now.anchor == motion.bearing_anchors@[i]
            &&& now.source == was.source && now.target == was.target
            &&& now.outer_diameter == was.outer_diameter && now.inner_diameter
                == was.inner_diameter
            &&& was.axis.finite() ==> now.axis.units() == turned(was.axis.units(), yaw as int)
            &&& kind_turned(was.kind, now.kind, yaw)
        },
        0 <= i < before.sockets@.len() ==> {
            let was = before.sockets@[i];
            let now = after.sockets@[i];
            &&& now.anchor == motion.socket_anchors@[i]
            &&& now.source == was.source
            &&& now.outer_diameter == was.outer_diameter && now.inner_diameter
                == was.inner_diameter
            &&& was.axis.finite() ==> now.axis.units() == turned(was.axis.units(), yaw as int)
            &&& kind_turned(was.kind, now.kind, yaw)
        },
{
    if 0 <= i < before.bearings@.len() {
        let was = before.bearings@[i];
        assert(after.bearings@[i] == bearing_turned(was, yaw, motion.bearing_anchors@[i]));
        if was.axis.finite() {
            directions_turn_as_points_do(was.axis, yaw);
        }
        lemma_kind_turned(was.kind, yaw);
    }
    if 0 <= i < before.sockets@.len() {
        let was = before.sockets@[i];
        assert(after.sockets@[i] == socket_turned(was, yaw, motion.socket_anchors@[i]));
        if was.axis.finite() {
            directions_turn_as_points_do(was.axis, yaw);
        }
        lemma_kind_turned(was.kind, yaw);
    }
}

/// Whether a joint's motion is another's, its mounting direction turned.
pub open spec fn kind_turned(was: JointKind, now: JointKind, yaw: u8) -> bool {
    &&& same_hardware(was.hardware, now.hardware)
    &&& now.owns_head == was.owns_head && now.translational == was.translational
    &&& now.lower == was.lower && now.upper == was.upper
    &&& mount_direction(was.hardware) is Some <==> mount_direction(now.hardware) is Some
    &&& mount_direction(was.hardware) matches Some(normal) ==> normal.finite()
        ==> mount_direction(now.hardware)->0.units() == turned(normal.units(), yaw as int)
}

/// Turning a joint's motion turns its mounting direction.
proof fn lemma_kind_turned(kind: JointKind, yaw: u8)
    ensures
        kind_turned(
            kind,
            JointKind { hardware: turned_hardware(kind.hardware, yaw), ..kind },
            yaw,
        ),
{
    if let Some(normal) = mount_direction(kind.hardware) {
        if normal.finite() {
            directions_turn_as_points_do(normal, yaw);
        }
    }
}

/// A turned creation keeps its rows: every part its shape, layers and parent,
/// at the turned and moved place and in the turned orientation; every grid but
/// the default one goes where it was carried, and names, memberships, wires and
/// connections stay.
pub proof fn turned_creations_keep_their_rows(
    before: &CreationDocument,
    yaw: u8,
    translation: GridVec,
    motion: CardinalMotion,
    after: &CreationDocument,
    i: int,
)
    requires
        before.turned_into(yaw, translation, motion, after),
    ensures
        after.parts@.len() == before.parts@.len() && after.frames@.len() == before.frames@.len(),
        after.bearings@.len() == before.bearings@.len() && after.sockets@.len()
            == before.sockets@.len() && after.regions@.len() == before.regions@.len(),
        after.version == before.version && after.name@ == before.name@,
        after.part_frames@ == before.part_frames@,
        after.region_frames@ == before.region_frames@,
        after.welds@ == before.welds@ && after.rigid_links@ == before.rigid_links@,
        after.drive_links@ == before.drive_links@,
        after.input_seat_links@ == before.input_seat_links@,
        after.seat_controller_links@ == before.seat_controller_links@,
        after.gearbox_configs@ == before.gearbox_configs@,
        after.shape_features@ == before.shape_features@,
        0 <= i < before.parts@.len() ==> {
            let was = pose_of(pose_doc_in(before.parts@[i]));
            let now = pose_of(pose_doc_in(after.parts@[i]));
            let to = turned(was.translation_ticks.point(), yaw as int);
            &&& shape_of_doc(after.parts@[i]) == shape_of_doc(before.parts@[i])
            &&& layer_docs_in(after.parts@[i]) == layer_docs_in(before.parts@[i])
            &&& parent_in(after.parts@[i]) == parent_in(before.parts@[i])
            &&& now.rotation == motion.rotations@[i]
            &&& now.translation_ticks.x == to.0 + 50 * translation.x
            &&& now.translation_ticks.y == to.1 + 50 * translation.y
            &&& now.translation_ticks.z == to.2 + 50 * translation.z
        },
        0 <= i < before.frames@.len() ==> {
            &&& after.frames@[i] == before.frames@[i] || after.frames@[i] == motion.frames@[i]
            &&& after.frames@[i] != motion.frames@[i] ==> frame_is_default(before.frames@[i])
            &&& frame_is_default(before.frames@[i]) ==> after.frames@[i] == before.frames@[i]
        },
{
    if 0 <= i < before.parts@.len() {
        assert(part_turned(
            before.parts@[i],
            yaw as int,
            translation,
            motion.rotations@[i],
            after.parts@[i],
        ));
    }
    if 0 <= i < before.frames@.len() {
        assert(after.frames@[i] == frame_turned(before.frames@[i], motion.frames@[i]));
    }
}

} // verus!
