//! Face-culled meshing of a chunk into 32-bit packed vertices.
//!
//! A vertex packs its chunk-local corner coordinates (6 bits each), the
//! index of its face normal (3 bits) and the material id (11 bits) into a
//! single `u32`. Each visible face is a quad: 4 vertices in
//! counter-clockwise order seen from outside, and 6 indices forming the two
//! triangles `(0, 1, 2)` and `(0, 2, 3)`.
use vstd::prelude::*;
use crate::grid::CHUNK_SIZE;
use crate::chunk::{Chunk, Voxel, voxel_index};

verus! {

/// Packs a vertex: bits 0-5 x, 6-11 y, 12-17 z, 18-20 the face normal,
/// 21-31 the material id; each field is cut to its width.
pub open spec fn pack_vertex(vx: u32, vy: u32, vz: u32, face: u32, material: u16) -> u32 {
    (vx & 0x3F) | ((vy & 0x3F) << 6u32) | ((vz & 0x3F) << 12u32) | ((face & 0x7) << 18u32) | (((
    material as u32) & 0x7FF) << 21u32)
}

/// The x coordinate stored in a packed vertex.
pub open spec fn unpack_x(packed: u32) -> u32 {
    packed & 0x3F
}

/// The y coordinate stored in a packed vertex.
pub open spec fn unpack_y(packed: u32) -> u32 {
    (packed >> 6u32) & 0x3F
}

/// The z coordinate stored in a packed vertex.
pub open spec fn unpack_z(packed: u32) -> u32 {
    (packed >> 12u32) & 0x3F
}

/// The face normal index stored in a packed vertex.
pub open spec fn unpack_normal(packed: u32) -> u32 {
    (packed >> 18u32) & 0x7
}

/// The material id stored in a packed vertex.
pub open spec fn unpack_material(packed: u32) -> u32 {
    (packed >> 21u32) & 0x7FF
}

/// Unpacking a packed vertex gives back each field cut to its width; for
/// fields that fit (coordinates below 64, normal below 8, material below
/// 2048) it gives back the fields themselves.
pub proof fn law_unpack_pack(vx: u32, vy: u32, vz: u32, face: u32, material: u16)
    ensures
        unpack_x(pack_vertex(vx, vy, vz, face, material)) == vx & 0x3F,
        unpack_y(pack_vertex(vx, vy, vz, face, material)) == vy & 0x3F,
        unpack_z(pack_vertex(vx, vy, vz, face, material)) == vz & 0x3F,
        unpack_normal(pack_vertex(vx, vy, vz, face, material)) == face & 0x7,
        unpack_material(pack_vertex(vx, vy, vz, face, material)) == (material as u32) & 0x7FF,
        vx < 64 ==> unpack_x(pack_vertex(vx, vy, vz, face, material)) == vx,
        vy < 64 ==> unpack_y(pack_vertex(vx, vy, vz, face, material)) == vy,
        vz < 64 ==> unpack_z(pack_vertex(vx, vy, vz, face, material)) == vz,
        face < 8 ==> unpack_normal(pack_vertex(vx, vy, vz, face, material)) == face,
        material < 2048 ==> unpack_material(pack_vertex(vx, vy, vz, face, material)) == material,
{
    let m: u32 = material as u32;
    assert(((vx & 0x3F) | ((vy & 0x3F) << 6u32) | ((vz & 0x3F) << 12u32) | ((face & 0x7) << 18u32) | ((m
        & 0x7FF) << 21u32)) & 0x3F == vx & 0x3F) by (bit_vector);
    assert((((vx & 0x3F) | ((vy & 0x3F) << 6u32) | ((vz & 0x3F) << 12u32) | ((face & 0x7) << 18u32) | ((m
        & 0x7FF) << 21u32)) >> 6u32) & 0x3F == vy & 0x3F) by (bit_vector);
    assert((((vx & 0x3F) | ((vy & 0x3F) << 6u32) | ((vz & 0x3F) << 12u32) | ((face & 0x7) << 18u32) | ((m
        & 0x7FF) << 21u32)) >> 12u32) & 0x3F == vz & 0x3F) by (bit_vector);
    assert((((vx & 0x3F) | ((vy & 0x3F) << 6u32) | ((vz & 0x3F) << 12u32) | ((face & 0x7) << 18u32) | ((m
        & 0x7FF) << 21u32)) >> 18u32) & 0x7 == face & 0x7) by (bit_vector);
    assert((((vx & 0x3F) | ((vy & 0x3F) << 6u32) | ((vz & 0x3F) << 12u32) | ((face & 0x7) << 18u32) | ((m
        & 0x7FF) << 21u32)) >> 21u32) & 0x7FF == m & 0x7FF) by (bit_vector);
    assert(vx < 64 ==> vx & 0x3F == vx) by (bit_vector);
    assert(vy < 64 ==> vy & 0x3F == vy) by (bit_vector);
    assert(vz < 64 ==> vz & 0x3F == vz) by (bit_vector);
    assert(face < 8 ==> face & 0x7 == face) by (bit_vector);
    assert(m < 2048 ==> m & 0x7FF == m) by (bit_vector);
}

/// Corner `k` (0 to 3) of face `face` of the unit cube, counter-clockwise
/// seen from outside. Faces: 0 up (+y), 1 down (-y), 2 east (+x),
/// 3 west (-x), 4 north (+z), 5 south (-z).
pub open spec fn face_corner(face: u32, k: int) -> (u32, u32, u32) {
    let corners: Seq<(u32, u32, u32)> = if face == 0 {
        seq![(0, 1, 1), (1, 1, 1), (1, 1, 0), (0, 1, 0)]
    } else if face == 1 {
        seq![(0, 0, 0), (1, 0, 0), (1, 0, 1), (0, 0, 1)]
    } else if face == 2 {
        seq![(1, 0, 1), (1, 0, 0), (1, 1, 0), (1, 1, 1)]
    } else if face == 3 {
        seq![(0, 0, 0), (0, 0, 1), (0, 1, 1), (0, 1, 0)]
    } else if face == 4 {
        seq![(0, 0, 1), (1, 0, 1), (1, 1, 1), (0, 1, 1)]
    } else {
        seq![(1, 0, 0), (0, 0, 0), (0, 1, 0), (1, 1, 0)]
    };
    corners[k]
}

/// The edge from corner `o` to corner `a`.
pub open spec fn edge(o: (u32, u32, u32), a: (u32, u32, u32)) -> (int, int, int) {
    (a.0 - o.0, a.1 - o.1, a.2 - o.2)
}

/// The cross product of two vectors.
pub open spec fn cross(u: (int, int, int), v: (int, int, int)) -> (int, int, int) {
    (u.1 * v.2 - u.2 * v.1, u.2 * v.0 - u.0 * v.2, u.0 * v.1 - u.1 * v.0)
}

/// The cross product of the edges `a - o` and `b - o` of a triangle of
/// face corners `o`, `a`, `b`.
pub open spec fn corner_cross(o: (u32, u32, u32), a: (u32, u32, u32), b: (u32, u32, u32)) -> (int, int, int) {
    cross(edge(o, a), edge(o, b))
}

/// The corners of every face run counter-clockwise seen from outside:
/// both triangles of the quad, corners `(0, 1, 2)` and `(0, 2, 3)`, have
/// the face's outward normal as the cross product of their edges, so
/// they face out of the cube.
pub proof fn law_face_corners_counter_clockwise(face: u32)
    requires
        face < 6,
    ensures
        corner_cross(face_corner(face, 0), face_corner(face, 1), face_corner(face, 2)) == face_offset(face),
        corner_cross(face_corner(face, 0), face_corner(face, 2), face_corner(face, 3)) == face_offset(face),
{
    if face == 0 {
        assert(face_corner(face, 0) == (0u32, 1u32, 1u32));
        assert(face_corner(face, 1) == (1u32, 1u32, 1u32));
        assert(face_corner(face, 2) == (1u32, 1u32, 0u32));
        assert(face_corner(face, 3) == (0u32, 1u32, 0u32));
        assert(edge((0u32, 1u32, 1u32), (1u32, 1u32, 1u32)) == (1int, 0int, 0int));
        assert(edge((0u32, 1u32, 1u32), (1u32, 1u32, 0u32)) == (1int, 0int, -1int));
        assert(cross((1int, 0int, 0int), (1int, 0int, -1int)) == (0int, 1int, 0int)) by (nonlinear_arith);
        assert(edge((0u32, 1u32, 1u32), (1u32, 1u32, 0u32)) == (1int, 0int, -1int));
        assert(edge((0u32, 1u32, 1u32), (0u32, 1u32, 0u32)) == (0int, 0int, -1int));
        assert(cross((1int, 0int, -1int), (0int, 0int, -1int)) == (0int, 1int, 0int)) by (nonlinear_arith);
    } else if face == 1 {
        assert(face_corner(face, 0) == (0u32, 0u32, 0u32));
        assert(face_corner(face, 1) == (1u32, 0u32, 0u32));
        assert(face_corner(face, 2) == (1u32, 0u32, 1u32));
        assert(face_corner(face, 3) == (0u32, 0u32, 1u32));
        assert(edge((0u32, 0u32, 0u32), (1u32, 0u32, 0u32)) == (1int, 0int, 0int));
        assert(edge((0u32, 0u32, 0u32), (1u32, 0u32, 1u32)) == (1int, 0int, 1int));
        assert(cross((1int, 0int, 0int), (1int, 0int, 1int)) == (0int, -1int, 0int)) by (nonlinear_arith);
        assert(edge((0u32, 0u32, 0u32), (1u32, 0u32, 1u32)) == (1int, 0int, 1int));
        assert(edge((0u32, 0u32, 0u32), (0u32, 0u32, 1u32)) == (0int, 0int, 1int));
        assert(cross((1int, 0int, 1int), (0int, 0int, 1int)) == (0int, -1int, 0int)) by (nonlinear_arith);
    } else if face == 2 {
        assert(face_corner(face, 0) == (1u32, 0u32, 1u32));
        assert(face_corner(face, 1) == (1u32, 0u32, 0u32));
        assert(face_corner(face, 2) == (1u32, 1u32, 0u32));
        assert(face_corner(face, 3) == (1u32, 1u32, 1u32));
        assert(edge((1u32, 0u32, 1u32), (1u32, 0u32, 0u32)) == (0int, 0int, -1int));
        assert(edge((1u32, 0u32, 1u32), (1u32, 1u32, 0u32)) == (0int, 1int, -1int));
        assert(cross((0int, 0int, -1int), (0int, 1int, -1int)) == (1int, 0int, 0int)) by (nonlinear_arith);
        assert(edge((1u32, 0u32, 1u32), (1u32, 1u32, 0u32)) == (0int, 1int, -1int));
        assert(edge((1u32, 0u32, 1u32), (1u32, 1u32, 1u32)) == (0int, 1int, 0int));
        assert(cross((0int, 1int, -1int), (0int, 1int, 0int)) == (1int, 0int, 0int)) by (nonlinear_arith);
    } else if face == 3 {
        assert(face_corner(face, 0) == (0u32, 0u32, 0u32));
        assert(face_corner(face, 1) == (0u32, 0u32, 1u32));
        assert(face_corner(face, 2) == (0u32, 1u32, 1u32));
        assert(face_corner(face, 3) == (0u32, 1u32, 0u32));
        assert(edge((0u32, 0u32, 0u32), (0u32, 0u32, 1u32)) == (0int, 0int, 1int));
        assert(edge((0u32, 0u32, 0u32), (0u32, 1u32, 1u32)) == (0int, 1int, 1int));
        assert(cross((0int, 0int, 1int), (0int, 1int, 1int)) == (-1int, 0int, 0int)) by (nonlinear_arith);
        assert(edge((0u32, 0u32, 0u32), (0u32, 1u32, 1u32)) == (0int, 1int, 1int));
        assert(edge((0u32, 0u32, 0u32), (0u32, 1u32, 0u32)) == (0int, 1int, 0int));
        assert(cross((0int, 1int, 1int), (0int, 1int, 0int)) == (-1int, 0int, 0int)) by (nonlinear_arith);
    } else if face == 4 {
        assert(face_corner(face, 0) == (0u32, 0u32, 1u32));
        assert(face_corner(face, 1) == (1u32, 0u32, 1u32));
        assert(face_corner(face, 2) == (1u32, 1u32, 1u32));
        assert(face_corner(face, 3) == (0u32, 1u32, 1u32));
        assert(edge((0u32, 0u32, 1u32), (1u32, 0u32, 1u32)) == (1int, 0int, 0int));
        assert(edge((0u32, 0u32, 1u32), (1u32, 1u32, 1u32)) == (1int, 1int, 0int));
        assert(cross((1int, 0int, 0int), (1int, 1int, 0int)) == (0int, 0int, 1int)) by (nonlinear_arith);
        assert(edge((0u32, 0u32, 1u32), (1u32, 1u32, 1u32)) == (1int, 1int, 0int));
        assert(edge((0u32, 0u32, 1u32), (0u32, 1u32, 1u32)) == (0int, 1int, 0int));
        assert(cross((1int, 1int, 0int), (0int, 1int, 0int)) == (0int, 0int, 1int)) by (nonlinear_arith);
    } else if face == 5 {
        assert(face_corner(face, 0) == (1u32, 0u32, 0u32));
        assert(face_corner(face, 1) == (0u32, 0u32, 0u32));
        assert(face_corner(face, 2) == (0u32, 1u32, 0u32));
        assert(face_corner(face, 3) == (1u32, 1u32, 0u32));
        assert(edge((1u32, 0u32, 0u32), (0u32, 0u32, 0u32)) == (-1int, 0int, 0int));
        assert(edge((1u32, 0u32, 0u32), (0u32, 1u32, 0u32)) == (-1int, 1int, 0int));
        assert(cross((-1int, 0int, 0int), (-1int, 1int, 0int)) == (0int, 0int, -1int)) by (nonlinear_arith);
        assert(edge((1u32, 0u32, 0u32), (0u32, 1u32, 0u32)) == (-1int, 1int, 0int));
        assert(edge((1u32, 0u32, 0u32), (1u32, 1u32, 0u32)) == (0int, 1int, 0int));
        assert(cross((-1int, 1int, 0int), (0int, 1int, 0int)) == (0int, 0int, -1int)) by (nonlinear_arith);
    }
}

/// The outward normal of face `face` as its corners wind around it: the
/// cross product of the edges of its first triangle.
pub open spec fn winding_normal(face: u32) -> (int, int, int) {
    corner_cross(face_corner(face, 0), face_corner(face, 1), face_corner(face, 2))
}

/// The dot product of a cube corner offset with a vector.
pub open spec fn dot(o: (u32, u32, u32), n: (int, int, int)) -> int {
    o.0 * n.0 + o.1 * n.1 + o.2 * n.2
}

/// The largest value of `dot(e, n)` over the corners `e` of the unit cube:
/// the sum of the positive components of `n`.
pub open spec fn cube_support(n: (int, int, int)) -> int {
    (if n.0 > 0 { n.0 } else { 0 }) + (if n.1 > 0 { n.1 } else { 0 }) + (if n.2 > 0 { n.2 } else { 0 })
}

/// Every corner of a face lies on that face of the unit cube: on the
/// plane across the face's outward (winding) normal that bounds the cube
/// on its outer side. So the down face has all its corners at y offset 0
/// and the up face at y offset 1. The normal is a unit vector along one
/// axis.
pub proof fn law_face_corners_on_face_plane(face: u32, k: int)
    requires
        face < 6,
        0 <= k < 4,
    ensures
        dot(face_corner(face, k), winding_normal(face)) == cube_support(winding_normal(face)),
        ({
            let n = winding_normal(face);
            (n.0 == 0 && n.1 == 0 && (n.2 == 1 || n.2 == -1)) || (n.0 == 0 && n.2 == 0 && (n.1 == 1 || n.1
                == -1)) || (n.1 == 0 && n.2 == 0 && (n.0 == 1 || n.0 == -1))
        }),
{
    law_face_corners_counter_clockwise(face);
    let n = winding_normal(face);
    let o = face_corner(face, k);
    assert(n == face_offset(face));
    assert(o.0 <= 1 && o.1 <= 1 && o.2 <= 1);
    if face == 0 {
        assert(o.1 == 1);
    } else if face == 1 {
        assert(o.1 == 0);
    } else if face == 2 {
        assert(o.0 == 1);
    } else if face == 3 {
        assert(o.0 == 0);
    } else if face == 4 {
        assert(o.2 == 1);
    } else {
        assert(o.2 == 0);
    }
    assert(dot(o, n) == cube_support(n)) by (nonlinear_arith)
        requires
            n == face_offset(face),
            face < 6,
            face == 0 ==> o.1 == 1,
            face == 1 ==> o.1 == 0,
            face == 2 ==> o.0 == 1,
            face == 3 ==> o.0 == 0,
            face == 4 ==> o.2 == 1,
            face == 5 ==> o.2 == 0,
    ;
}

/// A face of a voxel is visible exactly when the voxel next to it across
/// that face, one step along the face's outward (winding) normal, lies
/// outside the chunk or is air. So of two solid voxels stacked on y, the
/// lower shows no up face and the upper no down face.
pub proof fn law_face_visible_across_its_normal(voxels: Seq<Voxel>, x: int, y: int, z: int, face: u32)
    requires
        face < 6,
    ensures
        ({
            let n = winding_normal(face);
            let (nx, ny, nz) = (x + n.0, y + n.1, z + n.2);
            face_exposed(voxels, x, y, z, face) <==> (!(0 <= nx < 32 && 0 <= ny < 32 && 0 <= nz < 32)
                || voxel_at(voxels, nx, ny, nz).id == 0)
        }),
{
    law_face_corners_counter_clockwise(face);
}

/// The packed vertex of corner `k` of face `face` of voxel `(x, y, z)`.
pub open spec fn corner_vertex(x: u32, y: u32, z: u32, face: u32, k: int, material: u16) -> u32 {
    let (ox, oy, oz) = face_corner(face, k);
    pack_vertex((x + ox) as u32, (y + oy) as u32, (z + oz) as u32, face, material)
}

/// The 4 packed vertices of face `face` of voxel `(x, y, z)`.
pub open spec fn face_quad(x: u32, y: u32, z: u32, face: u32, material: u16) -> Seq<u32> {
    seq![
        corner_vertex(x, y, z, face, 0, material),
        corner_vertex(x, y, z, face, 1, material),
        corner_vertex(x, y, z, face, 2, material),
        corner_vertex(x, y, z, face, 3, material),
    ]
}

/// The 6 indices of the two triangles of the quad whose first vertex is
/// vertex number `start`.
pub open spec fn quad_index_block(start: int) -> Seq<u32> {
    seq![
        start as u32,
        (start + 1) as u32,
        (start + 2) as u32,
        start as u32,
        (start + 2) as u32,
        (start + 3) as u32,
    ]
}

/// The index list for `n` quads laid out one after the other.
pub open spec fn quad_indices(n: nat) -> Seq<u32>
    decreases n,
{
    if n == 0 {
        Seq::empty()
    } else {
        quad_indices((n - 1) as nat) + quad_index_block(4 * (n - 1))
    }
}

/// The offset from a voxel to its neighbour across face `face`.
pub open spec fn face_offset(face: u32) -> (int, int, int) {
    if face == 0 {
        (0, 1, 0)
    } else if face == 1 {
        (0, -1, 0)
    } else if face == 2 {
        (1, 0, 0)
    } else if face == 3 {
        (-1, 0, 0)
    } else if face == 4 {
        (0, 0, 1)
    } else {
        (0, 0, -1)
    }
}

/// The voxel at `(x, y, z)` of a chunk's voxel array.
pub open spec fn voxel_at(voxels: Seq<Voxel>, x: int, y: int, z: int) -> Voxel {
    voxels[voxel_index(x, y, z)]
}

/// Face `face` of voxel `(x, y, z)` is visible: its neighbour across that
/// face lies outside the chunk or is air.
pub open spec fn face_exposed(voxels: Seq<Voxel>, x: int, y: int, z: int, face: u32) -> bool {
    let (dx, dy, dz) = face_offset(face);
    let nx = x + dx;
    let ny = y + dy;
    let nz = z + dz;
    !(0 <= nx < 32 && 0 <= ny < 32 && 0 <= nz < 32) || voxel_at(voxels, nx, ny, nz).id == 0
}

/// The vertices of the visible faces among faces `0..k` of voxel
/// `(x, y, z)`, in face order.
pub open spec fn cell_faces(voxels: Seq<Voxel>, x: int, y: int, z: int, k: nat) -> Seq<u32>
    decreases k,
{
    if k == 0 {
        Seq::empty()
    } else {
        let f = (k - 1) as u32;
        cell_faces(voxels, x, y, z, (k - 1) as nat) + if face_exposed(voxels, x, y, z, f) {
            face_quad(x as u32, y as u32, z as u32, f, voxel_at(voxels, x, y, z).id)
        } else {
            Seq::empty()
        }
    }
}

/// The vertices that voxel `(x, y, z)` contributes: none for air, else
/// those of its visible faces.
pub open spec fn cell_vertices(voxels: Seq<Voxel>, x: int, y: int, z: int) -> Seq<u32> {
    if voxel_at(voxels, x, y, z).id == 0 {
        Seq::empty()
    } else {
        cell_faces(voxels, x, y, z, 6)
    }
}

/// Vertices of voxels `(x, y, 0..z)`.
pub open spec fn line_vertices(voxels: Seq<Voxel>, x: int, y: int, z: nat) -> Seq<u32>
    decreases z,
{
    if z == 0 {
        Seq::empty()
    } else {
        line_vertices(voxels, x, y, (z - 1) as nat) + cell_vertices(voxels, x, y, z - 1)
    }
}

/// Vertices of voxels `(x, 0..y, *)`, line after line.
pub open spec fn plane_vertices(voxels: Seq<Voxel>, x: int, y: nat) -> Seq<u32>
    decreases y,
{
    if y == 0 {
        Seq::empty()
    } else {
        plane_vertices(voxels, x, (y - 1) as nat) + line_vertices(voxels, x, y - 1, 32)
    }
}

/// Vertices of voxels `(0..x, *, *)`, plane after plane.
pub open spec fn block_vertices(voxels: Seq<Voxel>, x: nat) -> Seq<u32>
    decreases x,
{
    if x == 0 {
        Seq::empty()
    } else {
        block_vertices(voxels, (x - 1) as nat) + plane_vertices(voxels, x - 1, 32)
    }
}

/// The packed vertices of a chunk's mesh: for x, then y, then z from 0 to
/// 31, the visible faces of each solid voxel.
pub open spec fn mesh_vertices(voxels: Seq<Voxel>) -> Seq<u32> {
    block_vertices(voxels, 32)
}

/// Selects the packed vertices whose normal field is `face`.
pub open spec fn has_normal(face: u32) -> spec_fn(u32) -> bool {
    |v: u32| unpack_normal(v) == face
}

/// Keeping the elements that satisfy `pred` keeps all of a sequence whose
/// elements all satisfy it, and none of one whose elements all fail it.
proof fn lemma_filter_all_or_none(s: Seq<u32>, pred: spec_fn(u32) -> bool)
    ensures
        (forall|i: int| 0 <= i < s.len() ==> pred(#[trigger] s[i])) ==> s.filter(pred) == s,
        (forall|i: int| 0 <= i < s.len() ==> !pred(#[trigger] s[i])) ==> s.filter(pred) == Seq::<u32>::empty(),
    decreases s.len(),
{
    reveal(Seq::filter);
    if s.len() > 0 {
        let t = s.drop_last();
        if forall|i: int| 0 <= i < s.len() ==> pred(#[trigger] s[i]) {
            assert forall|i: int| 0 <= i < t.len() implies pred(#[trigger] t[i]) by {
                assert(t[i] == s[i]);
            }
        }
        if forall|i: int| 0 <= i < s.len() ==> !pred(#[trigger] s[i]) {
            assert forall|i: int| 0 <= i < t.len() implies !pred(#[trigger] t[i]) by {
                assert(t[i] == s[i]);
            }
        }
        lemma_filter_all_or_none(t, pred);
        assert(t.push(s.last()) =~= s);
        assert(pred(s.last()) == pred(s[s.len() - 1]));
    }
}

/// Every vertex of a face's quad carries that face as its normal field.
proof fn lemma_face_quad_normals(x: u32, y: u32, z: u32, face: u32, material: u16)
    requires
        face < 6,
    ensures
        forall|i: int|
            0 <= i < face_quad(x, y, z, face, material).len() ==> unpack_normal(
                #[trigger] face_quad(x, y, z, face, material)[i],
            ) == face,
{
    assert forall|i: int| 0 <= i < face_quad(x, y, z, face, material).len() implies unpack_normal(
        #[trigger] face_quad(x, y, z, face, material)[i],
    ) == face by {
        let (ox, oy, oz) = face_corner(face, i);
        law_unpack_pack((x + ox) as u32, (y + oy) as u32, (z + oz) as u32, face, material);
        assert(face_quad(x, y, z, face, material)[i] == corner_vertex(x, y, z, face, i, material));
    }
}

proof fn lemma_cell_faces_by_normal(voxels: Seq<Voxel>, x: int, y: int, z: int, k: nat, f: u32)
    requires
        k <= 6,
        f < 6,
    ensures
        cell_faces(voxels, x, y, z, k).filter(has_normal(f)) == if f < k && face_exposed(voxels, x, y, z, f) {
            face_quad(x as u32, y as u32, z as u32, f, voxel_at(voxels, x, y, z).id)
        } else {
            Seq::<u32>::empty()
        },
    decreases k,
{
    reveal(Seq::filter);
    if k > 0 {
        lemma_cell_faces_by_normal(voxels, x, y, z, (k - 1) as nat, f);
        let g = (k - 1) as u32;
        let m = voxel_at(voxels, x, y, z).id;
        let q = if face_exposed(voxels, x, y, z, g) {
            face_quad(x as u32, y as u32, z as u32, g, m)
        } else {
            Seq::empty()
        };
        Seq::filter_distributes_over_add(cell_faces(voxels, x, y, z, (k - 1) as nat), q, has_normal(f));
        lemma_face_quad_normals(x as u32, y as u32, z as u32, g, m);
        lemma_filter_all_or_none(q, has_normal(f));
        if g == f {
            assert forall|i: int| 0 <= i < q.len() implies has_normal(f)(#[trigger] q[i]) by {}
        } else {
            assert forall|i: int| 0 <= i < q.len() implies !has_normal(f)(#[trigger] q[i]) by {}
        }
        assert(Seq::<u32>::empty().filter(has_normal(f)) =~= Seq::<u32>::empty());
    }
}

/// Face culling, voxel by voxel: of the vertices a voxel contributes, those
/// with normal field `f` are the quad of face `f` (with the voxel's
/// material) exactly when the voxel is solid and its neighbour one step
/// along that face's outward (winding) normal lies outside the chunk or is
/// air, and there are none otherwise. So of two solid voxels stacked on y,
/// the lower draws no up face and the upper no down face.
pub proof fn law_cell_draws_faces_open_across_their_normal(voxels: Seq<Voxel>, x: int, y: int, z: int, f: u32)
    requires
        0 <= x < 32,
        0 <= y < 32,
        0 <= z < 32,
        f < 6,
    ensures
        ({
            let n = winding_normal(f);
            let (nx, ny, nz) = (x + n.0, y + n.1, z + n.2);
            let open = !(0 <= nx < 32 && 0 <= ny < 32 && 0 <= nz < 32) || voxel_at(voxels, nx, ny, nz).id == 0;
            cell_vertices(voxels, x, y, z).filter(has_normal(f)) == if voxel_at(voxels, x, y, z).id != 0
                && open {
                face_quad(x as u32, y as u32, z as u32, f, voxel_at(voxels, x, y, z).id)
            } else {
                Seq::<u32>::empty()
            }
        }),
{
    law_face_visible_across_its_normal(voxels, x, y, z, f);
    if voxel_at(voxels, x, y, z).id != 0 {
        lemma_cell_faces_by_normal(voxels, x, y, z, 6, f);
    } else {
        reveal(Seq::filter);
        assert(Seq::<u32>::empty().filter(has_normal(f)) =~= Seq::<u32>::empty());
    }
}

/// The geometry of a chunk's mesh: packed vertices and triangle indices.
pub struct ChunkGeometry {
    pub packed_vertices: Vec<u32>,
    pub indices: Vec<u32>,
}

/// Packs one vertex, as `pack_vertex` says.
pub fn pack_voxel_vertex(vx: u32, vy: u32, vz: u32, face: u32, material_id: u16) -> (packed: u32)
    ensures
        packed == pack_vertex(vx, vy, vz, face, material_id),
{
    (vx & 0x3F) | ((vy & 0x3F) << 6u32) | ((vz & 0x3F) << 12u32) | ((face & 0x7) << 18u32) | (((
    material_id as u32) & 0x7FF) << 21u32)
}

/// Appends one face of voxel `(x, y, z)`: its 4 packed vertices and the 6
/// indices of its two triangles.
fn add_face(
    positions: &mut Vec<u32>,
    indices: &mut Vec<u32>,
    x: u32,
    y: u32,
    z: u32,
    face: u32,
    material_id: u16,
)
    requires
        face < 6,
        x < 0xFFFF_FFFF,
        y < 0xFFFF_FFFF,
        z < 0xFFFF_FFFF,
        old(positions)@.len() + 4 <= 0xFFFF_FFFF,
    ensures
        final(positions)@ == old(positions)@ + face_quad(x, y, z, face, material_id),
        final(indices)@ == old(indices)@ + quad_index_block(old(positions)@.len() as int),
{
    let start_idx = positions.len() as u32;
    let offsets: [[u32; 3]; 4] = if face == 0 {
        [[0, 1, 1], [1, 1, 1], [1, 1, 0], [0, 1, 0]]
    } else if face == 1 {
        [[0, 0, 0], [1, 0, 0], [1, 0, 1], [0, 0, 1]]
    } else if face == 2 {
        [[1, 0, 1], [1, 0, 0], [1, 1, 0], [1, 1, 1]]
    } else if face == 3 {
        [[0, 0, 0], [0, 0, 1], [0, 1, 1], [0, 1, 0]]
    } else if face == 4 {
        [[0, 0, 1], [1, 0, 1], [1, 1, 1], [0, 1, 1]]
    } else {
        [[1, 0, 0], [0, 0, 0], [0, 1, 0], [1, 1, 0]]
    };
    let ghost start = positions@;
    let mut k: usize = 0;
    while k < 4
        invariant
            k <= 4,
            face < 6,
            x < 0xFFFF_FFFF,
            y < 0xFFFF_FFFF,
            z < 0xFFFF_FFFF,
            forall|j: int, c: int| 0 <= j < 4 && 0 <= c < 3 ==> #[trigger] offsets[j][c] <= 1,
            forall|j: int|
                0 <= j < 4 ==> (offsets[j][0], offsets[j][1], offsets[j][2]) == face_corner(face, j),
            positions@.len() == start.len() + k,
            forall|j: int| 0 <= j < start.len() ==> positions@[j] == start[j],
            forall|j: int|
                0 <= j < k ==> positions@[start.len() + j] == corner_vertex(x, y, z, face, j, material_id),
        decreases 4 - k,
    {
        let corner = offsets[k];
        let packed = pack_voxel_vertex(
            x + corner[0],
            y + corner[1],
            z + corner[2],
            face,
            material_id,
        );
        positions.push(packed);
        k = k + 1;
    }
    assert(positions@ =~= start + face_quad(x, y, z, face, material_id));
    indices.push(start_idx);
    indices.push(start_idx + 1);
    indices.push(start_idx + 2);
    indices.push(start_idx);
    indices.push(start_idx + 2);
    indices.push(start_idx + 3);
    assert(indices@ =~= old(indices)@ + quad_index_block(start.len() as int));
}

/// Whether face `face` of voxel `(x, y, z)` is visible.
fn face_is_exposed(voxels: &Vec<Voxel>, x: usize, y: usize, z: usize, face: u32) -> (b: bool)
    requires
        voxels@.len() == 32768,
        x < 32,
        y < 32,
        z < 32,
        face < 6,
    ensures
        b == face_exposed(voxels@, x as int, y as int, z as int, face),
{
    let (dx, dy, dz): (i32, i32, i32) = if face == 0 {
        (0, 1, 0)
    } else if face == 1 {
        (0, -1, 0)
    } else if face == 2 {
        (1, 0, 0)
    } else if face == 3 {
        (-1, 0, 0)
    } else if face == 4 {
        (0, 0, 1)
    } else {
        (0, 0, -1)
    };
    let nx = x as i32 + dx;
    let ny = y as i32 + dy;
    let nz = z as i32 + dz;
    if nx < 0 || nx >= CHUNK_SIZE as i32 || ny < 0 || ny >= CHUNK_SIZE as i32 || nz < 0 || nz
        >= CHUNK_SIZE as i32 {
        true
    } else {
        voxels[Chunk::get_index(nx as usize, ny as usize, nz as usize)].id == 0
    }
}

proof fn lemma_quad_indices_step(n: nat)
    ensures
        quad_indices(n + 1) == quad_indices(n) + quad_index_block((4 * n) as int),
{
}

/// Meshes a chunk: for every solid voxel, in order of x, then y, then z,
/// the faces whose neighbour is air or outside the chunk, each as 4 packed
/// vertices and the 6 indices of its two triangles.
pub fn generate_chunk_geometry(chunk: &Chunk) -> (g: ChunkGeometry)
    requires
        chunk.wf(),
    ensures
        g.packed_vertices@ == mesh_vertices(chunk.voxels@),
        g.packed_vertices@.len() % 4 == 0,
        g.packed_vertices@.len() <= 24 * 32768,
        g.indices@ == quad_indices(g.packed_vertices@.len() / 4),
{
    let ghost vox = chunk.voxels@;
    let mut packed_vertices: Vec<u32> = Vec::new();
    let mut indices: Vec<u32> = Vec::new();
    let mut x: usize = 0;
    while x < CHUNK_SIZE
        invariant
            vox == chunk.voxels@,
            vox.len() == 32768,
            x <= 32,
            packed_vertices@ == block_vertices(vox, x as nat),
            packed_vertices@.len() % 4 == 0,
            packed_vertices@.len() <= 24 * (1024 * x),
            indices@ == quad_indices(packed_vertices@.len() / 4),
        decreases 32 - x,
    {
        let mut y: usize = 0;
        while y < CHUNK_SIZE
            invariant
                vox == chunk.voxels@,
                vox.len() == 32768,
                x < 32,
                y <= 32,
                packed_vertices@ == block_vertices(vox, x as nat) + plane_vertices(vox, x as int, y as nat),
                packed_vertices@.len() % 4 == 0,
                packed_vertices@.len() <= 24 * (1024 * x + 32 * y),
                indices@ == quad_indices(packed_vertices@.len() / 4),
            decreases 32 - y,
        {
            let mut z: usize = 0;
            while z < CHUNK_SIZE
                invariant
                    vox == chunk.voxels@,
                    vox.len() == 32768,
                    x < 32,
                    y < 32,
                    z <= 32,
                    packed_vertices@ == block_vertices(vox, x as nat) + plane_vertices(vox, x as int, y as nat)
                        + line_vertices(vox, x as int, y as int, z as nat),
                    packed_vertices@.len() % 4 == 0,
                    packed_vertices@.len() <= 24 * (1024 * x + 32 * y + z),
                    indices@ == quad_indices(packed_vertices@.len() / 4),
                decreases 32 - z,
            {
                let ghost prefix = packed_vertices@;
                let voxel = chunk.voxels[Chunk::get_index(x, y, z)];
                if voxel.id != 0 {
                    let mut face: u32 = 0;
                    while face < 6
                        invariant
                            vox == chunk.voxels@,
                            vox.len() == 32768,
                            x < 32,
                            y < 32,
                            z < 32,
                            face <= 6,
                            prefix.len() <= 24 * (1024 * x + 32 * y + z),
                            voxel == voxel_at(vox, x as int, y as int, z as int),
                            packed_vertices@ == prefix + cell_faces(vox, x as int, y as int, z as int, face as nat),
                            packed_vertices@.len() % 4 == 0,
                            packed_vertices@.len() <= prefix.len() + 4 * face,
                            indices@ == quad_indices(packed_vertices@.len() / 4),
                        decreases 6 - face,
                    {
                        let ghost before = packed_vertices@;
                        if face_is_exposed(&chunk.voxels, x, y, z, face) {
                            add_face(
                                &mut packed_vertices,
                                &mut indices,
                                x as u32,
                                y as u32,
                                z as u32,
                                face,
                                voxel.id,
                            );
                            proof {
                                lemma_quad_indices_step((before.len() / 4) as nat);
                                assert(packed_vertices@.len() / 4 == before.len() / 4 + 1);
                            }
                        }
                        proof {
                            assert(packed_vertices@ =~= prefix + cell_faces(vox, x as int, y as int, z as int, (face + 1) as nat));
                        }
                        face = face + 1;
                    }
                }
                proof {
                    assert(packed_vertices@ =~= prefix + cell_vertices(vox, x as int, y as int, z as int));
                    assert(block_vertices(vox, x as nat) + plane_vertices(vox, x as int, y as nat)
                        + line_vertices(vox, x as int, y as int, (z + 1) as nat) =~= prefix + cell_vertices(vox, x as int, y as int, z as int));
                }
                z = z + 1;
            }
            proof {
                assert(block_vertices(vox, x as nat) + plane_vertices(vox, x as int, (y + 1) as nat)
                    =~= block_vertices(vox, x as nat) + plane_vertices(vox, x as int, y as nat)
                        + line_vertices(vox, x as int, y as int, 32));
            }
            y = y + 1;
        }
        proof {
            assert(block_vertices(vox, (x + 1) as nat) =~= block_vertices(vox, x as nat) + plane_vertices(vox, x as int, 32));
        }
        x = x + 1;
    }
    ChunkGeometry { packed_vertices, indices }
}

/// Each vertex that a face adds unpacks, as the shader does, to the
/// face's corner, its normal index and its material, for coordinates up
/// to 62 and materials below 2048.
pub proof fn law_face_quad_unpacks(x: u32, y: u32, z: u32, face: u32, material: u16, k: int)
    requires
        x <= 62,
        y <= 62,
        z <= 62,
        face < 6,
        material < 2048,
        0 <= k < 4,
    ensures
        ({
            let v = face_quad(x, y, z, face, material)[k];
            let (ox, oy, oz) = face_corner(face, k);
            &&& unpack_x(v) == x + ox
            &&& unpack_y(v) == y + oy
            &&& unpack_z(v) == z + oz
            &&& unpack_normal(v) == face
            &&& unpack_material(v) == material
            &&& ox <= 1 && oy <= 1 && oz <= 1
        }),
{
    let (ox, oy, oz) = face_corner(face, k);
    assert(ox <= 1 && oy <= 1 && oz <= 1);
    law_unpack_pack((x + ox) as u32, (y + oy) as u32, (z + oz) as u32, face, material);
    assert(face_quad(x, y, z, face, material)[k] == corner_vertex(x, y, z, face, k, material));
}

/// Each vertex a face adds lies on that face's side of the voxel's cube:
/// unpacked, its offset from the voxel, dotted with the face's outward
/// (winding) normal, is the largest such value over the cube's corners.
/// So the down face of voxel `(x, y, z)` lies in the plane `y` and its up
/// face in the plane `y + 1`.
pub proof fn law_face_quad_on_face_plane(x: u32, y: u32, z: u32, face: u32, material: u16, k: int)
    requires
        x <= 62,
        y <= 62,
        z <= 62,
        face < 6,
        material < 2048,
        0 <= k < 4,
    ensures
        ({
            let v = face_quad(x, y, z, face, material)[k];
            let n = winding_normal(face);
            (unpack_x(v) - x) * n.0 + (unpack_y(v) - y) * n.1 + (unpack_z(v) - z) * n.2 == cube_support(n)
        }),
{
    law_face_quad_unpacks(x, y, z, face, material, k);
    law_face_corners_on_face_plane(face, k);
    let v = face_quad(x, y, z, face, material)[k];
    let o = face_corner(face, k);
    assert(unpack_x(v) - x == o.0 && unpack_y(v) - y == o.1 && unpack_z(v) - z == o.2);
}

/// The fields of a packed vertex describe a corner of a chunk: each
/// coordinate at most `CHUNK_SIZE`, and the normal one of the 6 faces.
pub open spec fn vertex_in_chunk(v: u32) -> bool {
    &&& unpack_x(v) <= 32
    &&& unpack_y(v) <= 32
    &&& unpack_z(v) <= 32
    &&& unpack_normal(v) < 6
}

/// Every element of `s` is a corner of the chunk.
pub open spec fn all_in_chunk(s: Seq<u32>) -> bool {
    forall|i: int| 0 <= i < s.len() ==> vertex_in_chunk(#[trigger] s[i])
}

/// Vertex `v` is a corner of the cube of solid voxel `(x, y, z)`, and its
/// material field holds that voxel's id cut to its 11 bits.
pub open spec fn corner_of_solid_voxel(voxels: Seq<Voxel>, v: u32, x: int, y: int, z: int) -> bool {
    &&& 0 <= x < 32 && 0 <= y < 32 && 0 <= z < 32
    &&& voxel_at(voxels, x, y, z).id != 0
    &&& x <= unpack_x(v) <= x + 1
    &&& y <= unpack_y(v) <= y + 1
    &&& z <= unpack_z(v) <= z + 1
    &&& unpack_material(v) == (voxel_at(voxels, x, y, z).id as u32) & 0x7FF
}

/// Vertex `v` belongs to some solid voxel of the chunk, in the sense of
/// `corner_of_solid_voxel`.
pub open spec fn from_solid_voxel(voxels: Seq<Voxel>, v: u32) -> bool {
    exists|x: int, y: int, z: int| corner_of_solid_voxel(voxels, v, x, y, z)
}

/// Every element of `s` belongs to a solid voxel of the chunk.
pub open spec fn all_from_solid_voxels(voxels: Seq<Voxel>, s: Seq<u32>) -> bool {
    forall|i: int| 0 <= i < s.len() ==> #[trigger] from_solid_voxel(voxels, s[i])
}

proof fn lemma_all_from_solid_concat(voxels: Seq<Voxel>, a: Seq<u32>, b: Seq<u32>)
    requires
        all_from_solid_voxels(voxels, a),
        all_from_solid_voxels(voxels, b),
    ensures
        all_from_solid_voxels(voxels, a + b),
{
    assert forall|i: int| 0 <= i < (a + b).len() implies #[trigger] from_solid_voxel(voxels, (a + b)[i]) by {
        if i < a.len() {
            assert((a + b)[i] == a[i]);
            assert(from_solid_voxel(voxels, a[i]));
        } else {
            assert((a + b)[i] == b[i - a.len()]);
            assert(from_solid_voxel(voxels, b[i - a.len()]));
        }
    }
}

proof fn lemma_all_in_chunk_concat(a: Seq<u32>, b: Seq<u32>)
    requires
        all_in_chunk(a),
        all_in_chunk(b),
    ensures
        all_in_chunk(a + b),
{
    assert forall|i: int| 0 <= i < (a + b).len() implies vertex_in_chunk(#[trigger] (a + b)[i]) by {
        if i < a.len() {
            assert((a + b)[i] == a[i]);
        } else {
            assert((a + b)[i] == b[i - a.len()]);
        }
    }
}

proof fn lemma_face_quad_from_solid(voxels: Seq<Voxel>, x: u32, y: u32, z: u32, face: u32)
    requires
        x < 32,
        y < 32,
        z < 32,
        face < 6,
        voxel_at(voxels, x as int, y as int, z as int).id != 0,
    ensures
        all_from_solid_voxels(voxels, face_quad(x, y, z, face, voxel_at(voxels, x as int, y as int, z as int).id)),
{
    let material = voxel_at(voxels, x as int, y as int, z as int).id;
    let q = face_quad(x, y, z, face, material);
    assert forall|k: int| 0 <= k < 4 implies #[trigger] from_solid_voxel(voxels, q[k]) by {
        let (ox, oy, oz) = face_corner(face, k);
        assert(ox <= 1 && oy <= 1 && oz <= 1);
        law_unpack_pack((x + ox) as u32, (y + oy) as u32, (z + oz) as u32, face, material);
        assert(q[k] == corner_vertex(x, y, z, face, k, material));
        assert(corner_of_solid_voxel(voxels, q[k], x as int, y as int, z as int));
    }
}

proof fn lemma_face_quad_in_chunk(x: u32, y: u32, z: u32, face: u32, material: u16)
    requires
        x < 32,
        y < 32,
        z < 32,
        face < 6,
    ensures
        all_in_chunk(face_quad(x, y, z, face, material)),
{
    assert forall|k: int| 0 <= k < 4 implies vertex_in_chunk(#[trigger] face_quad(x, y, z, face, material)[k]) by {
        let (ox, oy, oz) = face_corner(face, k);
        assert(ox <= 1 && oy <= 1 && oz <= 1);
        law_unpack_pack((x + ox) as u32, (y + oy) as u32, (z + oz) as u32, face, material);
        assert(face_quad(x, y, z, face, material)[k] == corner_vertex(x, y, z, face, k, material));
    }
}

proof fn lemma_cell_faces_in_chunk(voxels: Seq<Voxel>, x: int, y: int, z: int, k: nat)
    requires
        0 <= x < 32,
        0 <= y < 32,
        0 <= z < 32,
        k <= 6,
    ensures
        all_in_chunk(cell_faces(voxels, x, y, z, k)),
        voxel_at(voxels, x, y, z).id != 0 ==> all_from_solid_voxels(voxels, cell_faces(voxels, x, y, z, k)),
        cell_faces(voxels, x, y, z, k).len() <= 4 * k,
    decreases k,
{
    if k > 0 {
        lemma_cell_faces_in_chunk(voxels, x, y, z, (k - 1) as nat);
        let f = (k - 1) as u32;
        let q = if face_exposed(voxels, x, y, z, f) {
            face_quad(x as u32, y as u32, z as u32, f, voxel_at(voxels, x, y, z).id)
        } else {
            Seq::empty()
        };
        if face_exposed(voxels, x, y, z, f) {
            lemma_face_quad_in_chunk(x as u32, y as u32, z as u32, f, voxel_at(voxels, x, y, z).id);
            if voxel_at(voxels, x, y, z).id != 0 {
                lemma_face_quad_from_solid(voxels, x as u32, y as u32, z as u32, f);
            }
        }
        lemma_all_in_chunk_concat(cell_faces(voxels, x, y, z, (k - 1) as nat), q);
        if voxel_at(voxels, x, y, z).id != 0 {
            lemma_all_from_solid_concat(voxels, cell_faces(voxels, x, y, z, (k - 1) as nat), q);
        }
    }
}

proof fn lemma_line_in_chunk(voxels: Seq<Voxel>, x: int, y: int, z: nat)
    requires
        0 <= x < 32,
        0 <= y < 32,
        z <= 32,
    ensures
        all_in_chunk(line_vertices(voxels, x, y, z)),
        all_from_solid_voxels(voxels, line_vertices(voxels, x, y, z)),
    decreases z,
{
    if z > 0 {
        lemma_line_in_chunk(voxels, x, y, (z - 1) as nat);
        lemma_cell_faces_in_chunk(voxels, x, y, z - 1, 6);
        lemma_all_in_chunk_concat(line_vertices(voxels, x, y, (z - 1) as nat), cell_vertices(voxels, x, y, z - 1));
        lemma_all_from_solid_concat(voxels, line_vertices(voxels, x, y, (z - 1) as nat), cell_vertices(voxels, x, y, z - 1));
    }
}

proof fn lemma_plane_in_chunk(voxels: Seq<Voxel>, x: int, y: nat)
    requires
        0 <= x < 32,
        y <= 32,
    ensures
        all_in_chunk(plane_vertices(voxels, x, y)),
        all_from_solid_voxels(voxels, plane_vertices(voxels, x, y)),
    decreases y,
{
    if y > 0 {
        lemma_plane_in_chunk(voxels, x, (y - 1) as nat);
        lemma_line_in_chunk(voxels, x, y - 1, 32);
        lemma_all_in_chunk_concat(plane_vertices(voxels, x, (y - 1) as nat), line_vertices(voxels, x, y - 1, 32));
        lemma_all_from_solid_concat(voxels, plane_vertices(voxels, x, (y - 1) as nat), line_vertices(voxels, x, y - 1, 32));
    }
}

proof fn lemma_block_in_chunk(voxels: Seq<Voxel>, x: nat)
    requires
        x <= 32,
    ensures
        all_in_chunk(block_vertices(voxels, x)),
        all_from_solid_voxels(voxels, block_vertices(voxels, x)),
    decreases x,
{
    if x > 0 {
        lemma_block_in_chunk(voxels, (x - 1) as nat);
        lemma_plane_in_chunk(voxels, x - 1, 32);
        lemma_all_in_chunk_concat(block_vertices(voxels, (x - 1) as nat), plane_vertices(voxels, x - 1, 32));
        lemma_all_from_solid_concat(voxels, block_vertices(voxels, (x - 1) as nat), plane_vertices(voxels, x - 1, 32));
    }
}

/// Every vertex of a chunk's mesh is a corner of the chunk: coordinates
/// from 0 to `CHUNK_SIZE` (so they fit their 6-bit fields) and a normal
/// index naming one of the 6 faces.
pub proof fn law_mesh_vertices_in_chunk(voxels: Seq<Voxel>)
    ensures
        all_in_chunk(mesh_vertices(voxels)),
{
    lemma_block_in_chunk(voxels, 32);
}

/// Every vertex of a chunk's mesh is a corner of a solid voxel of that
/// chunk and carries, in its material field, that voxel's id (cut to the
/// field's 11 bits).
pub proof fn law_mesh_vertices_carry_materials(voxels: Seq<Voxel>)
    ensures
        all_from_solid_voxels(voxels, mesh_vertices(voxels)),
{
    lemma_block_in_chunk(voxels, 32);
}

/// The index list of `n` quads has 6 indices per quad, and each index
/// names one of the quads' `4 * n` vertices.
pub proof fn law_quad_indices_in_range(n: nat)
    requires
        4 * n <= 0xFFFF_FFFF,
    ensures
        quad_indices(n).len() == 6 * n,
        forall|i: int| 0 <= i < quad_indices(n).len() ==> #[trigger] quad_indices(n)[i] < 4 * n,
    decreases n,
{
    if n > 0 {
        law_quad_indices_in_range((n - 1) as nat);
        let a = quad_indices((n - 1) as nat);
        let b = quad_index_block(4 * (n - 1));
        assert forall|i: int| 0 <= i < quad_indices(n).len() implies #[trigger] quad_indices(n)[i] < 4 * n by {
            if i < a.len() {
                assert((a + b)[i] == a[i]);
                assert(quad_indices(n)[i] == a[i]);
            } else {
                assert(quad_indices(n)[i] == b[i - a.len()]);
            }
        }
    }
}

} // verus!
