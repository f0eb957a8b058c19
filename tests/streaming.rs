use voxel_stream::coord::ChunkCoord;
use voxel_stream::loader::{ChunkLoader, LoaderError};
use voxel_stream::registry::ChunkMap;

fn empty(_x: i64, _y: i64, _z: i64) -> bool {
    false
}

fn handle_for(c: ChunkCoord) -> u64 {
    (((c.x + 10) as u64) << 16) | (((c.y + 10) as u64) << 8) | ((c.z + 10) as u64)
}

fn sorted(mut v: Vec<ChunkCoord>) -> Vec<(i32, i32, i32)> {
    let mut r: Vec<(i32, i32, i32)> = v.drain(..).map(|c| (c.x, c.y, c.z)).collect();
    r.sort();
    r
}

fn box_around(cx: i32, cy: i32, cz: i32, d: i32) -> Vec<(i32, i32, i32)> {
    let mut r = vec![];
    for x in cx - d..=cx + d {
        for y in cy - d..=cy + d {
            for z in cz - d..=cz + d {
                r.push((x, y, z));
            }
        }
    }
    r
}

fn tick_and_record(l: &mut ChunkLoader, map: &mut ChunkMap, p: ChunkCoord) -> (Vec<ChunkCoord>, Vec<ChunkCoord>, Vec<u64>) {
    let out = l.update_player_position(p, map, &empty);
    let loaded: Vec<ChunkCoord> = out.loads.iter().map(|(c, _)| *c).collect();
    for c in &loaded {
        assert_eq!(l.record_loaded(*c, handle_for(*c)), None);
    }
    (loaded, out.unloaded, out.released)
}

#[test]
fn negative_view_distance_is_refused() {
    assert_eq!(ChunkLoader::new(-1).err(), Some(LoaderError::NegativeViewDistance));
    assert!(ChunkLoader::new(0).is_ok());
}

#[test]
fn first_tick_loads_the_whole_box() {
    let mut l = ChunkLoader::new(1).unwrap();
    let mut map = ChunkMap::new();
    let (loaded, unloaded, released) = tick_and_record(&mut l, &mut map, ChunkCoord::new(0, 0, 0));
    assert_eq!(loaded.len(), 27);
    assert_eq!(sorted(loaded), box_around(0, 0, 0, 1));
    assert!(unloaded.is_empty());
    assert!(released.is_empty());
    assert_eq!(sorted(l.loaded_chunks()), box_around(0, 0, 0, 1));
    assert!(map.contains_key(ChunkCoord::new(-1, -1, -1)));
    assert_eq!(l.player_position(), Some(ChunkCoord::new(0, 0, 0)));
}

#[test]
fn unchanged_position_is_idle() {
    let mut l = ChunkLoader::new(1).unwrap();
    let mut map = ChunkMap::new();
    tick_and_record(&mut l, &mut map, ChunkCoord::new(0, 0, 0));
    let before = l.loaded_chunks();
    let out = l.update_player_position(ChunkCoord::new(0, 0, 0), &mut map, &empty);
    assert!(out.loads.is_empty());
    assert!(out.unloaded.is_empty());
    assert!(out.released.is_empty());
    assert_eq!(l.loaded_chunks(), before);
}

#[test]
fn moving_one_chunk_loads_the_new_plane_and_unloads_by_manhattan_distance() {
    let mut l = ChunkLoader::new(1).unwrap();
    let mut map = ChunkMap::new();
    tick_and_record(&mut l, &mut map, ChunkCoord::new(0, 0, 0));
    let (loaded, unloaded, released) = tick_and_record(&mut l, &mut map, ChunkCoord::new(1, 0, 0));
    // the x = 2 plane of the box around (1, 0, 0)
    let expected_load: Vec<(i32, i32, i32)> =
        box_around(1, 0, 0, 1).into_iter().filter(|c| c.0 == 2).collect();
    assert_eq!(sorted(loaded), expected_load);
    // loaded chunks farther than 1 (Manhattan) from the old position (0, 0, 0)
    let expected_unload: Vec<(i32, i32, i32)> = box_around(0, 0, 0, 1)
        .into_iter()
        .filter(|c| c.0.abs() + c.1.abs() + c.2.abs() > 1)
        .collect();
    assert_eq!(expected_unload.len(), 20);
    assert_eq!(sorted(unloaded.clone()), expected_unload);
    let expected_handles: Vec<u64> = unloaded.iter().map(|c| handle_for(*c)).collect();
    assert_eq!(released, expected_handles);
    // generated data stays in the registry after unloading
    assert!(map.contains_key(ChunkCoord::new(-1, -1, -1)));
    assert_eq!(l.loaded_chunks().len(), 7 + 9);
}

#[test]
fn loaded_set_and_handles_stay_in_lockstep() {
    let mut l = ChunkLoader::new(1).unwrap();
    let mut map = ChunkMap::new();
    for p in [(0, 0, 0), (1, 0, 0), (1, 1, 0), (-2, 1, 0), (-2, 1, 0)] {
        tick_and_record(&mut l, &mut map, ChunkCoord::new(p.0, p.1, p.2));
        for c in l.loaded_chunks() {
            assert_eq!(l.handle_of(c), Some(handle_for(c)));
        }
        let mut all = sorted(l.loaded_chunks());
        let n = all.len();
        all.dedup();
        assert_eq!(all.len(), n);
    }
}

#[test]
fn record_and_unload_return_handles() {
    let mut l = ChunkLoader::new(2).unwrap();
    let c = ChunkCoord::new(5, 5, 5);
    assert_eq!(l.record_loaded(c, 7), None);
    assert_eq!(l.record_loaded(c, 9), Some(7));
    assert!(l.is_loaded(c));
    assert_eq!(l.handle_of(c), Some(9));
    assert_eq!(l.unload_chunk(c), Some(9));
    assert_eq!(l.unload_chunk(c), None);
    assert!(!l.is_loaded(c));
    assert_eq!(l.view_distance(), 2);
}

#[test]
fn chunks_to_load_and_unload_queries() {
    let mut l = ChunkLoader::new(0).unwrap();
    l.record_loaded(ChunkCoord::new(0, 0, 0), 1);
    l.record_loaded(ChunkCoord::new(3, 0, 0), 2);
    assert!(l.get_chunks_to_load(ChunkCoord::new(0, 0, 0)).is_empty());
    assert_eq!(l.get_chunks_to_load(ChunkCoord::new(1, 0, 0)), vec![ChunkCoord::new(1, 0, 0)]);
    assert_eq!(l.get_chunks_to_unload(ChunkCoord::new(0, 0, 0)), vec![ChunkCoord::new(3, 0, 0)]);
    let mut map = ChunkMap::new();
    let mesh = l.load_chunk(ChunkCoord::new(0, -1, 0), &mut map, &|_x: i64, _y: i64, _z: i64| true);
    assert_eq!(mesh.vertices.len(), 8 * 32768);
    assert!(map.contains_key(ChunkCoord::new(0, -1, 0)));
}

#[test]
fn tick_floors_the_world_position() {
    let mut l = ChunkLoader::new(0).unwrap();
    let mut map = ChunkMap::new();
    let out = l.tick(-1, 31, 32, &mut map, &empty);
    assert_eq!(l.player_position(), Some(ChunkCoord::new(-1, 0, 1)));
    assert_eq!(out.loads.len(), 1);
    assert_eq!(out.loads[0].0, ChunkCoord::new(-1, 0, 1));
    // a move inside the same chunk is idle
    let out = l.tick(-32, 0, 63, &mut map, &empty);
    assert!(out.loads.is_empty() && out.unloaded.is_empty() && out.released.is_empty());
}

#[test]
fn chunks_to_load_come_x_outer_z_inner() {
    let mut l = ChunkLoader::new(1).unwrap();
    l.record_loaded(ChunkCoord::new(-1, -1, 0), 3);
    let r = l.get_chunks_to_load(ChunkCoord::new(0, 0, 0));
    let mut expected = box_around(0, 0, 0, 1);
    expected.retain(|c| *c != (-1, -1, 0));
    let got: Vec<(i32, i32, i32)> = r.iter().map(|c| (c.x, c.y, c.z)).collect();
    assert_eq!(got, expected);
    assert_eq!(got[0], (-1, -1, -1));
    assert_eq!(got[1], (-1, -1, 1));
}

#[test]
fn record_appends_and_unload_keeps_order() {
    let mut l = ChunkLoader::new(1).unwrap();
    let a = ChunkCoord::new(0, 0, 0);
    let b = ChunkCoord::new(1, 0, 0);
    let c = ChunkCoord::new(2, 0, 0);
    l.record_loaded(a, 1);
    l.record_loaded(b, 2);
    l.record_loaded(c, 3);
    assert_eq!(l.loaded_chunks(), vec![a, b, c]);
    assert_eq!(l.record_loaded(a, 4), Some(1));
    assert_eq!(l.loaded_chunks(), vec![a, b, c]);
    assert_eq!(l.unload_chunk(b), Some(2));
    assert_eq!(l.loaded_chunks(), vec![a, c]);
    assert_eq!(l.unload_chunk(b), None);
    assert_eq!(l.loaded_chunks(), vec![a, c]);
    assert_eq!(l.handle_of(a), Some(4));
}
