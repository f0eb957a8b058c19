use voxel_stream::coord::ChunkCoord;
use voxel_stream::mesh::{
    emit_cube, generate_cube_indices, generate_cube_normals, generate_cube_vertices, generate_mesh, Face,
    MeshBuffers,
};
use voxel_stream::voxel::{generate_voxel_data, Chunk, Voxel, VOXELS_PER_CHUNK};

fn chunk_of(flags: impl Fn(usize) -> bool) -> Chunk {
    let mut voxels = Vec::new();
    for i in 0..VOXELS_PER_CHUNK {
        voxels.push(Voxel { is_solid: flags(i) });
    }
    Chunk { voxels }
}

fn assert_consistent(m: &MeshBuffers) {
    assert_eq!(m.indices.len() % 3, 0);
    assert_eq!(m.colors.len(), m.vertices.len());
    assert_eq!(m.uvs.len(), m.vertices.len());
    for &i in &m.indices {
        assert!((i as usize) < m.vertices.len());
    }
}

#[test]
fn face_tables() {
    let faces = Face::all_variants();
    assert_eq!(faces, vec![Face::Top, Face::Bottom, Face::Left, Face::Right, Face::Front, Face::Back]);
    assert_eq!(Face::Top.indices(), [0, 1, 2, 2, 3, 0]);
    assert_eq!(Face::Bottom.indices(), [5, 6, 7, 5, 7, 4]);
    assert_eq!(Face::Left.indices(), [7, 0, 4, 4, 0, 3]);
    assert_eq!(Face::Right.indices(), [6, 5, 1, 1, 5, 2]);
    assert_eq!(Face::Front.indices(), [7, 1, 0, 7, 6, 1]);
    assert_eq!(Face::Back.indices(), [5, 4, 3, 3, 2, 5]);
    assert_eq!(Face::Top.normal(), (0, 1, 0));
    assert_eq!(Face::Back.normal(), (0, 0, -1));
    assert_eq!(
        generate_cube_normals(),
        vec![(0, 1, 0), (0, -1, 0), (-1, 0, 0), (1, 0, 0), (0, 0, 1), (0, 0, -1)]
    );
}

#[test]
fn cube_indices_are_offset_by_base() {
    let r = generate_cube_indices(0);
    assert_eq!(r.len(), 36);
    assert_eq!(&r[0..6], &[0, 1, 2, 2, 3, 0]);
    assert_eq!(&r[30..36], &[5, 4, 3, 3, 2, 5]);
    let r = generate_cube_indices(8);
    assert_eq!(&r[6..12], &[13, 14, 15, 13, 15, 12]);
    assert!(r.iter().all(|&i| (8..16).contains(&i)));
}

#[test]
fn cube_vertices_at_position() {
    let v = generate_cube_vertices((1, 2, 3));
    assert_eq!(
        v,
        vec![(1, 3, 4), (2, 3, 4), (2, 3, 3), (1, 3, 3), (1, 2, 3), (2, 2, 3), (2, 2, 4), (1, 2, 4)]
    );
}

#[test]
fn emitting_advances_vertex_base() {
    let mut m = MeshBuffers { vertices: vec![], indices: vec![], colors: vec![], uvs: vec![] };
    emit_cube(&mut m, (0, 0, 0));
    emit_cube(&mut m, (5, 0, 0));
    assert_eq!(m.vertices.len(), 16);
    assert_eq!(m.indices.len(), 72);
    assert_eq!(m.indices[36], 8);
    assert_eq!(m.vertices[8], (5, 1, 1));
    assert_eq!(m.colors[15], (0, 255, 0, 255));
    assert_eq!(m.uvs[15], (1, 0));
    assert_consistent(&m);
}

#[test]
fn empty_chunk_gives_empty_mesh() {
    let chunk = chunk_of(|_| false);
    let m = generate_mesh(ChunkCoord::new(3, -2, 7), &chunk);
    assert!(m.vertices.is_empty());
    assert!(m.indices.is_empty());
    assert!(m.colors.is_empty());
    assert!(m.uvs.is_empty());
}

#[test]
fn full_chunk_gives_eight_vertices_per_voxel() {
    let chunk = chunk_of(|_| true);
    let m = generate_mesh(ChunkCoord::new(0, 0, 0), &chunk);
    assert_eq!(m.vertices.len(), 8 * 32 * 32 * 32);
    assert_eq!(m.indices.len(), 36 * 32 * 32 * 32);
    assert_consistent(&m);
}

#[test]
fn single_voxel_mesh_at_world_position() {
    // local (1, 2, 3) of chunk (1, 0, -1)
    let target = 1 + 2 * 32 + 3 * 1024;
    let chunk = chunk_of(|i| i == target);
    let m = generate_mesh(ChunkCoord::new(1, 0, -1), &chunk);
    assert_eq!(m.vertices, generate_cube_vertices((33, 2, -29)));
    assert_eq!(m.indices, generate_cube_indices(0));
}

#[test]
fn mesh_counts_match_solid_voxels() {
    let field = |_x: i64, y: i64, _z: i64| y < 3;
    let voxels = generate_voxel_data(ChunkCoord::new(0, 0, 0), &field);
    let k = voxels.iter().filter(|v| v.is_solid).count();
    assert_eq!(k, 3 * 32 * 32);
    let m = generate_mesh(ChunkCoord::new(0, 0, 0), &Chunk { voxels });
    assert_eq!(m.vertices.len(), 8 * k);
    assert_eq!(m.indices.len(), 36 * k);
    assert_consistent(&m);
}

fn cross(u: (i64, i64, i64), w: (i64, i64, i64)) -> (i64, i64, i64) {
    (u.1 * w.2 - u.2 * w.1, u.2 * w.0 - u.0 * w.2, u.0 * w.1 - u.1 * w.0)
}

#[test]
fn every_face_is_wound_outward() {
    let v = generate_cube_vertices((0, 0, 0));
    for f in Face::all_variants() {
        let idx = f.indices();
        let (nx, ny, nz) = f.normal();
        for t in 0..2 {
            let a = v[idx[3 * t] as usize];
            let b = v[idx[3 * t + 1] as usize];
            let c = v[idx[3 * t + 2] as usize];
            let n = cross((b.0 - a.0, b.1 - a.1, b.2 - a.2), (c.0 - a.0, c.1 - a.1, c.2 - a.2));
            assert_eq!(n, (nx as i64, ny as i64, nz as i64), "{:?} triangle {}", f, t);
        }
    }
}

#[test]
fn cube_indices_at_the_largest_base() {
    let r = generate_cube_indices(u32::MAX - 7);
    assert_eq!(r.iter().copied().max(), Some(u32::MAX));
    assert_eq!(r.iter().copied().min(), Some(u32::MAX - 7));
}
