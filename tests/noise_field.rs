use bracket_noise::prelude::{FastNoise, NoiseType};
use voxel_stream::coord::ChunkCoord;
use voxel_stream::mesh::generate_mesh;
use voxel_stream::voxel::{generate_voxel_data, Chunk, VOXELS_PER_CHUNK};

fn terrain_noise() -> FastNoise {
    let mut noise = FastNoise::seeded(1234);
    noise.set_noise_type(NoiseType::PerlinFractal);
    noise.set_frequency(0.04);
    noise
}

fn solid(noise: &FastNoise, x: i64, y: i64, z: i64) -> bool {
    let h = noise.get_noise3d(x as f32, y as f32, z as f32);
    (y as f32) < ((h + 1.0) * 0.5) * 20.0
}

#[test]
fn noise_samples_do_not_depend_on_call_order() {
    let a = terrain_noise();
    let b = terrain_noise();
    let points = [(0i64, 0i64, 0i64), (5, -3, 17), (-40, 12, 3), (100, 7, -64)];
    let forward: Vec<u32> = points
        .iter()
        .map(|&(x, y, z)| a.get_noise3d(x as f32, y as f32, z as f32).to_bits())
        .collect();
    let mut backward: Vec<u32> = points
        .iter()
        .rev()
        .map(|&(x, y, z)| b.get_noise3d(x as f32, y as f32, z as f32).to_bits())
        .collect();
    backward.reverse();
    assert_eq!(forward, backward);
    let again: Vec<u32> = points
        .iter()
        .map(|&(x, y, z)| a.get_noise3d(x as f32, y as f32, z as f32).to_bits())
        .collect();
    assert_eq!(forward, again);
}

#[test]
fn noise_terrain_chunks_are_reproducible() {
    let noise = terrain_noise();
    let field = |x: i64, y: i64, z: i64| solid(&noise, x, y, z);
    let c = ChunkCoord::new(0, 0, 0);
    let first = generate_voxel_data(c, &field);
    let second = generate_voxel_data(c, &field);
    assert_eq!(first.len(), VOXELS_PER_CHUNK);
    assert_eq!(first, second);
    // below the lowest possible height everything is solid, above the
    // highest nothing is
    assert!(generate_voxel_data(ChunkCoord::new(2, -1, 1), &field).iter().all(|v| v.is_solid));
    assert!(generate_voxel_data(ChunkCoord::new(2, 1, 1), &field).iter().all(|v| !v.is_solid));
    let k = first.iter().filter(|v| v.is_solid).count();
    let m = generate_mesh(c, &Chunk { voxels: first });
    assert_eq!(m.vertices.len(), 8 * k);
    assert_eq!(m.indices.len(), 36 * k);
}
