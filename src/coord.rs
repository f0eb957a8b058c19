//! Chunk addressing: grid coordinates, world-to-chunk conversion and the
//! distance measures used by the streaming controller.

use vstd::prelude::*;

verus! {

/// Number of voxels along each edge of a chunk.
pub const CHUNK_SIZE: usize = 32;

/// Address of a chunk in the regular chunk grid.
#[derive(PartialEq, Eq, Structural, Clone, Copy, Debug, Hash)]
pub struct ChunkCoord {
    pub x: i32,
    pub y: i32,
    pub z: i32,
}

impl ChunkCoord {
    pub fn new(x: i32, y: i32, z: i32) -> (r: ChunkCoord)
        ensures
            r == (ChunkCoord { x, y, z }),
    {
        ChunkCoord { x, y, z }
    }
}

pub open spec fn abs(v: int) -> int {
    if v < 0 {
        -v
    } else {
        v
    }
}

/// Sum of the per-axis distances between two chunk coordinates.
pub open spec fn manhattan(a: ChunkCoord, b: ChunkCoord) -> int {
    abs(a.x - b.x) + abs(a.y - b.y) + abs(a.z - b.z)
}

/// `c` lies in the axis-aligned box of half-width `d` around `center`.
pub open spec fn in_view_box(c: ChunkCoord, center: ChunkCoord, d: int) -> bool {
    &&& center.x - d <= c.x <= center.x + d
    &&& center.y - d <= c.y <= center.y + d
    &&& center.z - d <= c.z <= center.z + d
}

/// The view box around `center` fits in the coordinate range.
pub open spec fn box_fits(center: ChunkCoord, d: int) -> bool {
    &&& i32::MIN <= center.x - d && center.x + d <= i32::MAX
    &&& i32::MIN <= center.y - d && center.y + d <= i32::MAX
    &&& i32::MIN <= center.z - d && center.z + d <= i32::MAX
}

/// Chunk index along one axis of a world voxel coordinate (floored division).
pub open spec fn chunk_index(w: int) -> int {
    w / (CHUNK_SIZE as int)
}

/// Chunk holding the world voxel `(x, y, z)`.
pub open spec fn chunk_at(x: int, y: int, z: int) -> ChunkCoord {
    ChunkCoord {
        x: chunk_index(x) as i32,
        y: chunk_index(y) as i32,
        z: chunk_index(z) as i32,
    }
}

/// Floored division of a world coordinate by the chunk size; rounds toward
/// negative infinity, so `-1` lies in chunk `-1`.
pub fn world_to_chunk(w: i32) -> (r: i32)
    ensures
        r == chunk_index(w as int),
        32 * r <= w < 32 * r + 32,
{
    let shifted: u64 = (w as i64 + 2147483648i64) as u64;
    let q: u64 = shifted / 32;
    let r = (q as i64 - 67108864i64) as i32;
    assert(32 * r <= w < 32 * r + 32);
    assert(r == w as int / 32) by {
        vstd::arithmetic::div_mod::lemma_fundamental_div_mod(w as int, 32);
    }
    r
}

/// Chunk that holds the world voxel `(x, y, z)`.
pub fn chunk_of_world(x: i32, y: i32, z: i32) -> (r: ChunkCoord)
    ensures
        r == chunk_at(x as int, y as int, z as int),
{
    ChunkCoord { x: world_to_chunk(x), y: world_to_chunk(y), z: world_to_chunk(z) }
}

fn abs_diff(a: i32, b: i32) -> (r: i64)
    ensures
        r == abs(a - b),
{
    let d: i64 = a as i64 - b as i64;
    if d < 0 {
        -d
    } else {
        d
    }
}

/// Manhattan distance between two chunk coordinates.
pub fn manhattan_distance(a: ChunkCoord, b: ChunkCoord) -> (r: i64)
    ensures
        r == manhattan(a, b),
{
    abs_diff(a.x, b.x) + abs_diff(a.y, b.y) + abs_diff(a.z, b.z)
}

} // verus!
