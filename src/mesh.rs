//! Naive cube meshing: every solid voxel becomes a unit cube of 8 corners
//! and 6 faces (36 indices), appended to one growing set of buffers.

use vstd::prelude::*;
use crate::coord::ChunkCoord;
use crate::voxel::{world_cell, Chunk, Voxel, VOXELS_PER_CHUNK, lemma_cell_index};
use vstd::arithmetic::div_mod::lemma_fundamental_div_mod_converse;

verus! {

/// A vertex position in world voxel units.
pub type Vertex = (i64, i64, i64);

/// An RGBA colour, one byte per channel.
pub type Color = (u8, u8, u8, u8);

/// A texture coordinate.
pub type Uv = (u8, u8);

/// Colour given to every cube vertex: opaque green.
pub open spec fn cube_color() -> Color {
    (0u8, 255u8, 0u8, 255u8)
}

/// Texture coordinate given to every cube vertex.
pub open spec fn cube_uv() -> Uv {
    (1u8, 0u8)
}

/// One side of a unit cube.
#[derive(PartialEq, Eq, Structural, Clone, Copy, Debug)]
pub enum Face {
    Top,
    Bottom,
    Left,
    Right,
    Front,
    Back,
}

/// The six faces in emission order.
pub open spec fn all_faces() -> Seq<Face> {
    seq![Face::Top, Face::Bottom, Face::Left, Face::Right, Face::Front, Face::Back]
}

/// Two outward-wound triangles of a face, as indices into the corner table
/// of `cube_vertices`.
pub open spec fn face_indices(f: Face) -> Seq<u32> {
    match f {
        Face::Top => seq![0u32, 1, 2, 2, 3, 0],
        Face::Bottom => seq![5u32, 6, 7, 5, 7, 4],
        Face::Left => seq![7u32, 0, 4, 4, 0, 3],
        Face::Right => seq![6u32, 5, 1, 1, 5, 2],
        Face::Front => seq![7u32, 1, 0, 7, 6, 1],
        Face::Back => seq![5u32, 4, 3, 3, 2, 5],
    }
}

/// Outward unit normal of a face.
pub open spec fn face_normal(f: Face) -> (i32, i32, i32) {
    match f {
        Face::Top => (0i32, 1i32, 0i32),
        Face::Bottom => (0i32, -1i32, 0i32),
        Face::Left => (-1i32, 0i32, 0i32),
        Face::Right => (1i32, 0i32, 0i32),
        Face::Front => (0i32, 0i32, 1i32),
        Face::Back => (0i32, 0i32, -1i32),
    }
}

impl Face {
    /// The six faces in emission order.
    pub fn all_variants() -> (r: Vec<Face>)
        ensures
            r@ == all_faces(),
    {
        let r = vec![Face::Top, Face::Bottom, Face::Left, Face::Right, Face::Front, Face::Back];
        assert(r@ =~= all_faces());
        r
    }

    /// Corner indices of the face's two triangles.
    pub fn indices(&self) -> (r: [u32; 6])
        ensures
            r@ == face_indices(*self),
    {
        let r: [u32; 6] = match self {
            Face::Top => [0, 1, 2, 2, 3, 0],
            Face::Bottom => [5, 6, 7, 5, 7, 4],
            Face::Left => [7, 0, 4, 4, 0, 3],
            Face::Right => [6, 5, 1, 1, 5, 2],
            Face::Front => [7, 1, 0, 7, 6, 1],
            Face::Back => [5, 4, 3, 3, 2, 5],
        };
        assert(r@ =~= face_indices(*self));
        r
    }

    /// Outward unit normal of the face.
    pub fn normal(&self) -> (r: (i32, i32, i32))
        ensures
            r == face_normal(*self),
    {
        match self {
            Face::Top => (0, 1, 0),
            Face::Bottom => (0, -1, 0),
            Face::Left => (-1, 0, 0),
            Face::Right => (1, 0, 0),
            Face::Front => (0, 0, 1),
            Face::Back => (0, 0, -1),
        }
    }
}

/// Normals of the six faces in emission order.
pub fn generate_cube_normals() -> (r: Vec<(i32, i32, i32)>)
    ensures
        r@.len() == 6,
        forall|k: int| 0 <= k < 6 ==> #[trigger] r@[k] == face_normal(all_faces()[k]),
{
    let faces = Face::all_variants();
    let mut r: Vec<(i32, i32, i32)> = Vec::new();
    let mut k: usize = 0;
    while k < 6
        invariant
            0 <= k <= 6,
            faces@ == all_faces(),
            r@.len() == k,
            forall|j: int| 0 <= j < k ==> #[trigger] r@[j] == face_normal(all_faces()[j]),
        decreases 6 - k,
    {
        r.push(faces[k].normal());
        k = k + 1;
    }
    r
}

/// Cross product of two integer vectors.
pub open spec fn cross(u: (int, int, int), w: (int, int, int)) -> (int, int, int) {
    (u.1 * w.2 - u.2 * w.1, u.2 * w.0 - u.0 * w.2, u.0 * w.1 - u.1 * w.0)
}

/// Normal of triangle `t` (0 or 1) of a face: the cross product of its
/// edges taken in index order over the corners `v`.
pub open spec fn triangle_normal(v: Seq<Vertex>, idx: Seq<u32>, t: int) -> (int, int, int) {
    let a = v[idx[3 * t] as int];
    let b = v[idx[3 * t + 1] as int];
    let c = v[idx[3 * t + 2] as int];
    cross((b.0 - a.0, b.1 - a.1, b.2 - a.2), (c.0 - a.0, c.1 - a.1, c.2 - a.2))
}

spec fn unit_mul(a: int, b: int) -> int {
    if a == 0 || b == 0 {
        0
    } else if a == b {
        1
    } else {
        -1
    }
}

proof fn lemma_unit_mul(a: int, b: int)
    requires
        -1 <= a <= 1,
        -1 <= b <= 1,
    ensures
        a * b == unit_mul(a, b),
{
    if a == 0 {
        assert(a * b == 0) by (nonlinear_arith)
            requires
                a == 0,
        ;
    } else if a == 1 {
        assert(a * b == b) by (nonlinear_arith)
            requires
                a == 1,
        ;
    } else {
        assert(a * b == -b) by (nonlinear_arith)
            requires
                a == -1,
        ;
    }
}

proof fn lemma_cross_unit(u: (int, int, int), w: (int, int, int))
    requires
        -1 <= u.0 <= 1 && -1 <= u.1 <= 1 && -1 <= u.2 <= 1,
        -1 <= w.0 <= 1 && -1 <= w.1 <= 1 && -1 <= w.2 <= 1,
    ensures
        cross(u, w) == (
            unit_mul(u.1, w.2) - unit_mul(u.2, w.1),
            unit_mul(u.2, w.0) - unit_mul(u.0, w.2),
            unit_mul(u.0, w.1) - unit_mul(u.1, w.0),
        ),
{
    lemma_unit_mul(u.1, w.2);
    lemma_unit_mul(u.2, w.1);
    lemma_unit_mul(u.2, w.0);
    lemma_unit_mul(u.0, w.2);
    lemma_unit_mul(u.0, w.1);
    lemma_unit_mul(u.1, w.0);
}

/// Every face is wound outward: both of its triangles, seen
/// counter-clockwise over the unit cube's corners, face along the face's
/// outward normal. Cubes elsewhere are translations of this one, which
/// leaves edge vectors, and so normals, unchanged.
pub proof fn lemma_faces_wound_outward(f: Face, t: int)
    requires
        0 <= t < 2,
    ensures
        triangle_normal(cube_vertices((0i64, 0i64, 0i64)), face_indices(f), t) == (
            face_normal(f).0 as int,
            face_normal(f).1 as int,
            face_normal(f).2 as int,
        ),
{
    let v = cube_vertices((0i64, 0i64, 0i64));
    let idx = face_indices(f);
    assert(forall|k: int| 0 <= k < 6 ==> #[trigger] idx[k] < 8) by {
        assert(face_indices(f).len() == 6);
        match f {
            Face::Top => {},
            Face::Bottom => {},
            Face::Left => {},
            Face::Right => {},
            Face::Front => {},
            Face::Back => {},
        }
    }
    assert(forall|k: int| 0 <= k < 8 ==> 0 <= #[trigger] v[k].0 <= 1 && 0 <= v[k].1 <= 1 && 0 <= v[k].2 <= 1);
    let a = v[idx[3 * t] as int];
    let b = v[idx[3 * t + 1] as int];
    let c = v[idx[3 * t + 2] as int];
    lemma_cross_unit((b.0 - a.0, b.1 - a.1, b.2 - a.2), (c.0 - a.0, c.1 - a.1, c.2 - a.2));
}

/// Corner table index of the `i`-th of a cube's 36 indices.
pub open spec fn cube_local_index(i: int) -> u32 {
    face_indices(all_faces()[i / 6])[i % 6]
}

/// The 36 indices of a cube whose corners start at vertex `start`.
pub open spec fn cube_indices(start: int) -> Seq<u32> {
    Seq::new(36, |i: int| (start + cube_local_index(i)) as u32)
}

/// The 8 corners of the unit cube at `p`: indices 0..4 the top face,
/// 4..8 the bottom face, with +y up.
pub open spec fn cube_vertices(p: Vertex) -> Seq<Vertex> {
    let x = p.0 as int;
    let y = p.1 as int;
    let z = p.2 as int;
    seq![
        (x as i64, (y + 1) as i64, (z + 1) as i64),
        ((x + 1) as i64, (y + 1) as i64, (z + 1) as i64),
        ((x + 1) as i64, (y + 1) as i64, z as i64),
        (x as i64, (y + 1) as i64, z as i64),
        (x as i64, y as i64, z as i64),
        ((x + 1) as i64, y as i64, z as i64),
        ((x + 1) as i64, y as i64, (z + 1) as i64),
        (x as i64, y as i64, (z + 1) as i64),
    ]
}

/// Every corner index of the cube table is below 8.
pub proof fn lemma_cube_local_index_bound(i: int)
    requires
        0 <= i < 36,
    ensures
        cube_local_index(i) < 8,
{
    let f = i / 6;
    let k = i % 6;
    assert(0 <= f < 6);
    assert(0 <= k < 6);
    assert(face_indices(all_faces()[f]).len() == 6);
    if f == 0 {
        assert(face_indices(Face::Top)[k] < 8);
    } else if f == 1 {
        assert(face_indices(Face::Bottom)[k] < 8);
    } else if f == 2 {
        assert(face_indices(Face::Left)[k] < 8);
    } else if f == 3 {
        assert(face_indices(Face::Right)[k] < 8);
    } else if f == 4 {
        assert(face_indices(Face::Front)[k] < 8);
    } else {
        assert(face_indices(Face::Back)[k] < 8);
    }
}

/// The 36 indices of one cube, offset by the running vertex base `start`.
pub fn generate_cube_indices(start: u32) -> (r: Vec<u32>)
    requires
        start + 7 <= u32::MAX,
    ensures
        r@ == cube_indices(start as int),
{
    let faces = Face::all_variants();
    let mut r: Vec<u32> = Vec::with_capacity(36);
    let mut f: usize = 0;
    while f < 6
        invariant
            0 <= f <= 6,
            start + 7 <= u32::MAX,
            faces@ == all_faces(),
            r@.len() == 6 * f,
            forall|j: int| 0 <= j < r@.len() ==> #[trigger] r@[j] == (start + cube_local_index(j)) as u32,
        decreases 6 - f,
    {
        let face_idx = faces[f].indices();
        let mut k: usize = 0;
        while k < 6
            invariant
                0 <= f < 6,
                0 <= k <= 6,
                start + 7 <= u32::MAX,
                faces@ == all_faces(),
                face_idx@ == face_indices(all_faces()[f as int]),
                r@.len() == 6 * f + k,
                forall|j: int| 0 <= j < r@.len() ==> #[trigger] r@[j] == (start + cube_local_index(j)) as u32,
            decreases 6 - k,
        {
            proof {
                let j = 6 * f + k;
                lemma_fundamental_div_mod_converse(j as int, 6, f as int, k as int);
                lemma_cube_local_index_bound(j as int);
            }
            r.push(start + face_idx[k]);
            k = k + 1;
        }
        f = f + 1;
    }
    assert(r@ =~= cube_indices(start as int));
    r
}

/// The 8 corners of the unit cube at `pos`.
pub fn generate_cube_vertices(pos: Vertex) -> (r: Vec<Vertex>)
    requires
        pos.0 < i64::MAX,
        pos.1 < i64::MAX,
        pos.2 < i64::MAX,
    ensures
        r@ == cube_vertices(pos),
{
    let (x, y, z) = pos;
    let r = vec![
        (x, y + 1, z + 1),
        (x + 1, y + 1, z + 1),
        (x + 1, y + 1, z),
        (x, y + 1, z),
        (x, y, z),
        (x + 1, y, z),
        (x + 1, y, z + 1),
        (x, y, z + 1),
    ];
    assert(r@ =~= cube_vertices(pos));
    r
}

/// Mathematical content of a set of mesh buffers.
pub struct MeshModel {
    pub vertices: Seq<Vertex>,
    pub indices: Seq<u32>,
    pub colors: Seq<Color>,
    pub uvs: Seq<Uv>,
}

/// Mesh buffers of one chunk: parallel per-vertex positions, colours and
/// texture coordinates, and triangle indices into the vertices.
#[derive(Debug)]
pub struct MeshBuffers {
    pub vertices: Vec<Vertex>,
    pub indices: Vec<u32>,
    pub colors: Vec<Color>,
    pub uvs: Vec<Uv>,
}

impl View for MeshBuffers {
    type V = MeshModel;

    open spec fn view(&self) -> MeshModel {
        MeshModel {
            vertices: self.vertices@,
            indices: self.indices@,
            colors: self.colors@,
            uvs: self.uvs@,
        }
    }
}

/// The mesh with nothing in it.
pub open spec fn empty_mesh() -> MeshModel {
    MeshModel { vertices: Seq::empty(), indices: Seq::empty(), colors: Seq::empty(), uvs: Seq::empty() }
}

/// `m` with the cube at `p` appended, its indices based at the current
/// vertex count.
pub open spec fn with_cube(m: MeshModel, p: Vertex) -> MeshModel {
    MeshModel {
        vertices: m.vertices + cube_vertices(p),
        indices: m.indices + cube_indices(m.vertices.len() as int),
        colors: m.colors + Seq::new(8, |k: int| cube_color()),
        uvs: m.uvs + Seq::new(8, |k: int| cube_uv()),
    }
}

/// The mesh of the first `n` voxels of a chunk at `c`, in storage order:
/// one cube per solid voxel, none for the others.
pub open spec fn mesh_of(c: ChunkCoord, voxels: Seq<Voxel>, n: nat) -> MeshModel
    decreases n,
{
    if n == 0 {
        empty_mesh()
    } else {
        let prev = mesh_of(c, voxels, (n - 1) as nat);
        if voxels[n - 1].is_solid {
            with_cube(prev, world_cell(c, n - 1))
        } else {
            prev
        }
    }
}

/// Number of solid voxels among the first `n`.
pub open spec fn solid_count(voxels: Seq<Voxel>, n: nat) -> nat
    decreases n,
{
    if n == 0 {
        0
    } else {
        solid_count(voxels, (n - 1) as nat) + if voxels[n - 1].is_solid { 1nat } else { 0nat }
    }
}

/// The buffers are consistent: one colour and one uv per vertex, whole
/// triangles, every index naming an existing vertex.
pub open spec fn mesh_consistent(m: MeshModel) -> bool {
    &&& m.colors.len() == m.vertices.len()
    &&& m.uvs.len() == m.vertices.len()
    &&& m.indices.len() % 3 == 0
    &&& forall|j: int| 0 <= j < m.indices.len() ==> #[trigger] m.indices[j] < m.vertices.len()
}

/// A chunk mesh is consistent, and holds 8 vertices and 36 indices for each
/// solid voxel.
pub proof fn lemma_mesh_of_consistent(c: ChunkCoord, voxels: Seq<Voxel>, n: nat)
    requires
        n <= voxels.len(),
        n <= VOXELS_PER_CHUNK,
    ensures
        mesh_consistent(mesh_of(c, voxels, n)),
        mesh_of(c, voxels, n).vertices.len() == 8 * solid_count(voxels, n),
        mesh_of(c, voxels, n).indices.len() == 36 * solid_count(voxels, n),
        solid_count(voxels, n) <= n,
    decreases n,
{
    if n > 0 {
        lemma_mesh_of_consistent(c, voxels, (n - 1) as nat);
        let prev = mesh_of(c, voxels, (n - 1) as nat);
        if voxels[n - 1].is_solid {
            let m = with_cube(prev, world_cell(c, n - 1));
            let base = prev.vertices.len() as int;
            assert forall|j: int| 0 <= j < m.indices.len() implies #[trigger] m.indices[j]
                < m.vertices.len() by {
                if j >= prev.indices.len() {
                    let i = j - prev.indices.len();
                    lemma_cube_local_index_bound(i);
                    assert(m.indices[j] == cube_indices(base)[i]);
                } else {
                    assert(m.indices[j] == prev.indices[j]);
                }
            }
        }
    }
}

/// Appends the unit cube at `pos` to `mesh`: its 8 corners, its 36 indices
/// based at the previous vertex count, and one colour and uv per corner.
pub fn emit_cube(mesh: &mut MeshBuffers, pos: Vertex)
    requires
        old(mesh).vertices@.len() + 7 <= u32::MAX,
        pos.0 < i64::MAX,
        pos.1 < i64::MAX,
        pos.2 < i64::MAX,
    ensures
        final(mesh)@ == with_cube(old(mesh)@, pos),
{
    let base = mesh.vertices.len() as u32;
    let mut cube_idx = generate_cube_indices(base);
    mesh.indices.append(&mut cube_idx);
    let mut cube_vtx = generate_cube_vertices(pos);
    mesh.vertices.append(&mut cube_vtx);
    let mut k: usize = 0;
    let ghost colors0 = mesh.colors@;
    let ghost uvs0 = mesh.uvs@;
    while k < 8
        invariant
            0 <= k <= 8,
            mesh.colors@ == colors0 + Seq::new(k as nat, |j: int| cube_color()),
            mesh.uvs@ == uvs0 + Seq::new(k as nat, |j: int| cube_uv()),
            mesh.vertices@ == old(mesh).vertices@ + cube_vertices(pos),
            mesh.indices@ == old(mesh).indices@ + cube_indices(old(mesh).vertices@.len() as int),
        decreases 8 - k,
    {
        mesh.colors.push((0, 255, 0, 255));
        mesh.uvs.push((1, 0));
        k = k + 1;
        assert(mesh.colors@ =~= colors0 + Seq::new(k as nat, |j: int| cube_color()));
        assert(mesh.uvs@ =~= uvs0 + Seq::new(k as nat, |j: int| cube_uv()));
    }
}

/// Builds the mesh of a chunk at `chunk_pos`: scans the voxels in storage
/// order and emits one cube per solid voxel at its world position. No face
/// is culled against neighbours.
pub fn generate_mesh(chunk_pos: ChunkCoord, chunk: &Chunk) -> (r: MeshBuffers)
    requires
        chunk.wf(),
    ensures
        r@ == mesh_of(chunk_pos, chunk.voxels@, VOXELS_PER_CHUNK as nat),
        mesh_consistent(r@),
        r@.vertices.len() == 8 * solid_count(chunk.voxels@, VOXELS_PER_CHUNK as nat),
        r@.indices.len() == 36 * solid_count(chunk.voxels@, VOXELS_PER_CHUNK as nat),
{
    let mut mesh = MeshBuffers { vertices: Vec::new(), indices: Vec::new(), colors: Vec::new(), uvs: Vec::new() };
    assert(mesh@ =~= empty_mesh());
    let bx: i64 = chunk_pos.x as i64 * 32;
    let by: i64 = chunk_pos.y as i64 * 32;
    let bz: i64 = chunk_pos.z as i64 * 32;
    let ghost voxels = chunk.voxels@;
    let mut z: usize = 0;
    while z < 32
        invariant
            0 <= z <= 32,
            chunk.wf(),
            voxels == chunk.voxels@,
            bx == chunk_pos.x * 32,
            by == chunk_pos.y * 32,
            bz == chunk_pos.z * 32,
            mesh@ == mesh_of(chunk_pos, voxels, (1024 * z) as nat),
        decreases 32 - z,
    {
        let mut y: usize = 0;
        while y < 32
            invariant
                0 <= z < 32,
                0 <= y <= 32,
                chunk.wf(),
                voxels == chunk.voxels@,
                bx == chunk_pos.x * 32,
                by == chunk_pos.y * 32,
                bz == chunk_pos.z * 32,
                mesh@ == mesh_of(chunk_pos, voxels, (1024 * z + 32 * y) as nat),
            decreases 32 - y,
        {
            let mut x: usize = 0;
            while x < 32
                invariant
                    0 <= z < 32,
                    0 <= y < 32,
                    0 <= x <= 32,
                    chunk.wf(),
                    voxels == chunk.voxels@,
                    bx == chunk_pos.x * 32,
                    by == chunk_pos.y * 32,
                    bz == chunk_pos.z * 32,
                    mesh@ == mesh_of(chunk_pos, voxels, (1024 * z + 32 * y + x) as nat),
                decreases 32 - x,
            {
                let index: usize = z * 1024 + y * 32 + x;
                proof {
                    lemma_cell_index(x as int, y as int, z as int);
                    lemma_mesh_of_consistent(chunk_pos, voxels, index as nat);
                }
                if chunk.voxels[index].is_solid {
                    let pos: Vertex = (bx + x as i64, by + y as i64, bz + z as i64);
                    emit_cube(&mut mesh, pos);
                }
                x = x + 1;
            }
            y = y + 1;
        }
        z = z + 1;
    }
    proof {
        lemma_mesh_of_consistent(chunk_pos, voxels, VOXELS_PER_CHUNK as nat);
    }
    mesh
}

} // verus!
