use voxel_stream::coord::{chunk_of_world, manhattan_distance, world_to_chunk, ChunkCoord};
use voxel_stream::registry::ChunkMap;
use voxel_stream::voxel::{generate_voxel_data, Chunk, VOXELS_PER_CHUNK};

#[test]
fn world_to_chunk_floors() {
    assert_eq!(world_to_chunk(0), 0);
    assert_eq!(world_to_chunk(31), 0);
    assert_eq!(world_to_chunk(32), 1);
    assert_eq!(world_to_chunk(-1), -1);
    assert_eq!(world_to_chunk(-32), -1);
    assert_eq!(world_to_chunk(-33), -2);
    assert_eq!(world_to_chunk(i32::MIN), -67108864);
    assert_eq!(world_to_chunk(i32::MAX), 67108863);
    assert_eq!(chunk_of_world(40, -5, 64), ChunkCoord::new(1, -1, 2));
}

#[test]
fn manhattan_distance_sums_axes() {
    assert_eq!(manhattan_distance(ChunkCoord::new(0, 0, 0), ChunkCoord::new(1, -2, 3)), 6);
    assert_eq!(manhattan_distance(ChunkCoord::new(i32::MIN, i32::MAX, 0), ChunkCoord::new(i32::MAX, i32::MIN, 0)), 2 * 4294967295);
}

#[test]
fn generation_fills_every_cell_from_world_position() {
    let field = |x: i64, y: i64, z: i64| (x + 2 * y + 3 * z).rem_euclid(5) == 0;
    let c = ChunkCoord::new(-1, 2, 0);
    let voxels = generate_voxel_data(c, &field);
    assert_eq!(voxels.len(), VOXELS_PER_CHUNK);
    for z in 0..32i64 {
        for y in 0..32i64 {
            for x in 0..32i64 {
                let i = (x + 32 * y + 1024 * z) as usize;
                assert_eq!(voxels[i].is_solid, field(-32 + x, 64 + y, z));
            }
        }
    }
}

#[test]
fn generation_is_deterministic() {
    let field = |x: i64, y: i64, z: i64| (x * 7 + y * 13 + z * 17).rem_euclid(3) == 1;
    let c = ChunkCoord::new(4, -3, 9);
    assert_eq!(generate_voxel_data(c, &field), generate_voxel_data(c, &field));
}

#[test]
fn registry_insert_get_remove() {
    let mut map = ChunkMap::new();
    let a = ChunkCoord::new(0, 0, 0);
    let b = ChunkCoord::new(1, 0, 0);
    assert!(!map.contains_key(a));
    map.insert(a, Chunk { voxels: generate_voxel_data(a, &|_x: i64, _y: i64, _z: i64| false) });
    map.insert(b, Chunk { voxels: generate_voxel_data(b, &|_x: i64, _y: i64, _z: i64| true) });
    assert!(map.contains_key(a));
    assert!(!map.get(a).unwrap().voxels[0].is_solid);
    assert!(map.get(b).unwrap().voxels[0].is_solid);
    // insertion overwrites
    map.insert(a, Chunk { voxels: generate_voxel_data(a, &|_x: i64, _y: i64, _z: i64| true) });
    assert!(map.get(a).unwrap().voxels[5].is_solid);
    assert!(map.remove(a));
    assert!(!map.remove(a));
    assert!(map.get(a).is_none());
    assert!(map.contains_key(b));
}
