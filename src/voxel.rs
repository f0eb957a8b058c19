//! Voxel field generation: one solidity flag per cell of a chunk, laid out
//! x-fastest, then y, then z.

use vstd::prelude::*;
use crate::coord::{ChunkCoord, CHUNK_SIZE};
use vstd::arithmetic::div_mod::lemma_fundamental_div_mod_converse;

verus! {

/// Number of voxels held by one chunk.
pub const VOXELS_PER_CHUNK: usize = 32768;

/// One cell of the world.
#[derive(PartialEq, Eq, Structural, Clone, Copy, Debug)]
pub struct Voxel {
    pub is_solid: bool,
}

/// The voxels of one chunk, indexed by `x + y * 32 + z * 1024`.
#[derive(Debug)]
pub struct Chunk {
    pub voxels: Vec<Voxel>,
}

impl Chunk {
    /// The chunk holds exactly one voxel per cell.
    pub open spec fn wf(&self) -> bool {
        self.voxels@.len() == VOXELS_PER_CHUNK
    }
}

/// Local x of the cell stored at linear index `i`.
pub open spec fn cell_x(i: int) -> int {
    i % 32
}

/// Local y of the cell stored at linear index `i`.
pub open spec fn cell_y(i: int) -> int {
    (i / 32) % 32
}

/// Local z of the cell stored at linear index `i`.
pub open spec fn cell_z(i: int) -> int {
    i / 1024
}

/// World position of the cell stored at linear index `i` of chunk `c`.
pub open spec fn world_cell(c: ChunkCoord, i: int) -> (i64, i64, i64) {
    (
        (c.x * 32 + cell_x(i)) as i64,
        (c.y * 32 + cell_y(i)) as i64,
        (c.z * 32 + cell_z(i)) as i64,
    )
}

/// `voxels` is a full chunk at `c` whose every flag is what `field` answers
/// for the cell's world position.
pub open spec fn generated_by<F: Fn(i64, i64, i64) -> bool>(
    c: ChunkCoord,
    field: F,
    voxels: Seq<Voxel>,
) -> bool {
    &&& voxels.len() == VOXELS_PER_CHUNK
    &&& forall|i: int|
        0 <= i < VOXELS_PER_CHUNK ==> #[trigger] field.ensures(world_cell(c, i), voxels[i].is_solid)
}

/// `field` answers every position, and the same position always alike.
pub open spec fn is_total_function<F: Fn(i64, i64, i64) -> bool>(field: F) -> bool {
    &&& forall|a: (i64, i64, i64)| #[trigger] field.requires(a)
    &&& forall|a: (i64, i64, i64), r1: bool, r2: bool|
        field.ensures(a, r1) && field.ensures(a, r2) ==> r1 == r2
}

/// The linear index `x + 32 y + 1024 z` of a local cell decodes back to it.
pub proof fn lemma_cell_index(x: int, y: int, z: int)
    requires
        0 <= x < 32,
        0 <= y < 32,
        0 <= z < 32,
    ensures
        0 <= x + 32 * y + 1024 * z < VOXELS_PER_CHUNK,
        cell_x(x + 32 * y + 1024 * z) == x,
        cell_y(x + 32 * y + 1024 * z) == y,
        cell_z(x + 32 * y + 1024 * z) == z,
{
    let i = x + 32 * y + 1024 * z;
    lemma_fundamental_div_mod_converse(i, 32, y + 32 * z, x);
    lemma_fundamental_div_mod_converse(y + 32 * z, 32, z, y);
    lemma_fundamental_div_mod_converse(i, 1024, z, x + 32 * y);
}

/// Fills a chunk at `chunk_pos`, asking `field` once per cell whether the
/// cell at that world position is solid. Cells are visited z-outer, y-middle,
/// x-inner, which is the storage order.
pub fn generate_voxel_data<F: Fn(i64, i64, i64) -> bool>(chunk_pos: ChunkCoord, field: &F) -> (r:
    Vec<Voxel>)
    requires
        forall|a: (i64, i64, i64)| #[trigger] field.requires(a),
    ensures
        generated_by(chunk_pos, *field, r@),
{
    let mut voxels: Vec<Voxel> = Vec::with_capacity(VOXELS_PER_CHUNK);
    let bx: i64 = chunk_pos.x as i64 * 32;
    let by: i64 = chunk_pos.y as i64 * 32;
    let bz: i64 = chunk_pos.z as i64 * 32;
    let mut z: i64 = 0;
    while z < 32
        invariant
            0 <= z <= 32,
            bx == chunk_pos.x * 32,
            by == chunk_pos.y * 32,
            bz == chunk_pos.z * 32,
            voxels@.len() == 1024 * z,
            forall|a: (i64, i64, i64)| #[trigger] field.requires(a),
            forall|i: int|
                0 <= i < voxels@.len() ==> #[trigger] field.ensures(
                    world_cell(chunk_pos, i),
                    voxels@[i].is_solid,
                ),
        decreases 32 - z,
    {
        let mut y: i64 = 0;
        while y < 32
            invariant
                0 <= z < 32,
                0 <= y <= 32,
                bx == chunk_pos.x * 32,
                by == chunk_pos.y * 32,
                bz == chunk_pos.z * 32,
                voxels@.len() == 1024 * z + 32 * y,
                forall|a: (i64, i64, i64)| #[trigger] field.requires(a),
                forall|i: int|
                    0 <= i < voxels@.len() ==> #[trigger] field.ensures(
                        world_cell(chunk_pos, i),
                        voxels@[i].is_solid,
                    ),
            decreases 32 - y,
        {
            let mut x: i64 = 0;
            while x < 32
                invariant
                    0 <= z < 32,
                    0 <= y < 32,
                    0 <= x <= 32,
                    bx == chunk_pos.x * 32,
                    by == chunk_pos.y * 32,
                    bz == chunk_pos.z * 32,
                    voxels@.len() == 1024 * z + 32 * y + x,
                    forall|a: (i64, i64, i64)| #[trigger] field.requires(a),
                    forall|i: int|
                        0 <= i < voxels@.len() ==> #[trigger] field.ensures(
                            world_cell(chunk_pos, i),
                            voxels@[i].is_solid,
                        ),
                decreases 32 - x,
            {
                proof {
                    lemma_cell_index(x as int, y as int, z as int);
                }
                let is_solid = field(bx + x, by + y, bz + z);
                let ghost prev = voxels@;
                voxels.push(Voxel { is_solid });
                proof {
                    assert forall|i: int| 0 <= i < voxels@.len() implies #[trigger] field.ensures(
                        world_cell(chunk_pos, i),
                        voxels@[i].is_solid,
                    ) by {
                        if i < prev.len() {
                            assert(voxels@[i] == prev[i]);
                        }
                    }
                }
                x = x + 1;
            }
            y = y + 1;
        }
        z = z + 1;
    }
    voxels
}

/// Generation is deterministic: for a field that answers each position with
/// one value, two chunks generated at the same coordinate are identical.
pub proof fn lemma_generation_deterministic<F: Fn(i64, i64, i64) -> bool>(
    c: ChunkCoord,
    field: F,
    a: Seq<Voxel>,
    b: Seq<Voxel>,
)
    requires
        is_total_function(field),
        generated_by(c, field, a),
        generated_by(c, field, b),
    ensures
        a.len() == VOXELS_PER_CHUNK,
        a == b,
{
    assert forall|i: int| 0 <= i < a.len() implies a[i] == b[i] by {
        assert(field.ensures(world_cell(c, i), a[i].is_solid));
        assert(field.ensures(world_cell(c, i), b[i].is_solid));
    }
    assert(a =~= b);
}

} // verus!
