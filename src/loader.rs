//! The streaming controller: decides which chunks to load and unload as the
//! observer moves, and keeps the loaded set and the host's render handles in
//! lockstep.
//!
//! A tick loads every chunk in the view box around the new position that is
//! not loaded yet, and unloads every loaded chunk whose Manhattan distance
//! from the previous position exceeds the view distance. Both sets are taken
//! from the state at the start of the tick. The chunks it loads are handed
//! back as meshes; each joins the loaded set once the host reports the
//! handle of the object it made for it, through `record_loaded`.

use vstd::prelude::*;
use crate::coord::{box_fits, chunk_at, chunk_of_world, in_view_box, manhattan, manhattan_distance, ChunkCoord};
use crate::mesh::{generate_mesh, mesh_of, MeshBuffers};
use crate::registry::ChunkMap;
use crate::voxel::{generate_voxel_data, generated_by, Chunk, Voxel, VOXELS_PER_CHUNK};

verus! {

/// Opaque identifier of a render object owned by the host.
pub type Handle = u64;

/// Configuration refused when a controller is built.
#[derive(PartialEq, Eq, Structural, Clone, Copy, Debug)]
pub enum LoaderError {
    NegativeViewDistance,
}

/// Chunks of `s`, in order, whose Manhattan distance from `p` exceeds `d`.
pub open spec fn far_chunks(s: Seq<ChunkCoord>, p: ChunkCoord, d: int) -> Seq<ChunkCoord>
    decreases s.len(),
{
    if s.len() == 0 {
        Seq::empty()
    } else {
        let prev = far_chunks(s.drop_last(), p, d);
        if manhattan(s.last(), p) > d {
            prev.push(s.last())
        } else {
            prev
        }
    }
}

/// Membership in `far_chunks`.
pub proof fn lemma_far_chunks_contains(s: Seq<ChunkCoord>, p: ChunkCoord, d: int, c: ChunkCoord)
    ensures
        far_chunks(s, p, d).contains(c) <==> (s.contains(c) && manhattan(c, p) > d),
    decreases s.len(),
{
    if s.len() > 0 {
        lemma_far_chunks_contains(s.drop_last(), p, d, c);
        let prev = far_chunks(s.drop_last(), p, d);
        if s.contains(c) && !s.drop_last().contains(c) {
            let i = choose|i: int| 0 <= i < s.len() && s[i] == c;
            if i < s.len() - 1 {
                assert(s.drop_last()[i] == c);
            }
        }
        if s.drop_last().contains(c) {
            let i = choose|i: int| 0 <= i < s.drop_last().len() && s.drop_last()[i] == c;
            assert(s[i] == c);
        }
        if manhattan(s.last(), p) > d {
            assert(prev.push(s.last()).last() == s.last());
            if prev.contains(c) {
                let i = choose|i: int| 0 <= i < prev.len() && prev[i] == c;
                assert(prev.push(s.last())[i] == c);
            }
            if prev.push(s.last()).contains(c) && c != s.last() {
                let i = choose|i: int| 0 <= i < prev.len() + 1 && prev.push(s.last())[i] == c;
                assert(prev[i] == c);
            }
        }
    }
}

/// The chunks picked for unloading are distinct when the loaded ones are.
proof fn lemma_far_chunks_distinct(s: Seq<ChunkCoord>, p: ChunkCoord, d: int)
    requires
        s.no_duplicates(),
    ensures
        far_chunks(s, p, d).no_duplicates(),
    decreases s.len(),
{
    if s.len() > 0 {
        let init = s.drop_last();
        assert(init.no_duplicates()) by {
            assert forall|i: int, j: int| 0 <= i < init.len() && 0 <= j < init.len() && i != j implies init[i] != init[j] by {
                assert(init[i] == s[i] && init[j] == s[j]);
            }
        }
        lemma_far_chunks_distinct(init, p, d);
        if manhattan(s.last(), p) > d {
            lemma_far_chunks_contains(init, p, d, s.last());
            if init.contains(s.last()) {
                let i = choose|i: int| 0 <= i < init.len() && init[i] == s.last();
                assert(s[i] == s[s.len() - 1]);
            }
            lemma_push_fresh(far_chunks(init, p, d), s.last());
        }
    }
}

/// Coordinates of the chunks loaded by a tick, in order.
pub open spec fn load_coords(loads: Seq<(ChunkCoord, MeshBuffers)>) -> Seq<ChunkCoord> {
    loads.map_values(|e: (ChunkCoord, MeshBuffers)| e.0)
}

/// Chunks of the row `(x, y, z0..z1)` that `loaded` lacks, in z order.
pub open spec fn scan_z(loaded: Seq<ChunkCoord>, x: int, y: int, z0: int, z1: int) -> Seq<ChunkCoord>
    decreases z1 - z0,
{
    if z1 <= z0 {
        Seq::empty()
    } else {
        let prev = scan_z(loaded, x, y, z0, z1 - 1);
        let c = ChunkCoord { x: x as i32, y: y as i32, z: (z1 - 1) as i32 };
        if loaded.contains(c) {
            prev
        } else {
            prev.push(c)
        }
    }
}

/// Chunks of the slab `(x, y0..y1, z0..z1)` that `loaded` lacks, y-outer.
pub open spec fn scan_y(loaded: Seq<ChunkCoord>, x: int, y0: int, y1: int, z0: int, z1: int) -> Seq<ChunkCoord>
    decreases y1 - y0,
{
    if y1 <= y0 {
        Seq::empty()
    } else {
        scan_y(loaded, x, y0, y1 - 1, z0, z1) + scan_z(loaded, x, y1 - 1, z0, z1)
    }
}

/// Chunks of the box `(x0..x1, y0..y1, z0..z1)` that `loaded` lacks,
/// x-outer, y-middle, z-inner.
pub open spec fn scan_x(
    loaded: Seq<ChunkCoord>,
    x0: int,
    x1: int,
    y0: int,
    y1: int,
    z0: int,
    z1: int,
) -> Seq<ChunkCoord>
    decreases x1 - x0,
{
    if x1 <= x0 {
        Seq::empty()
    } else {
        scan_x(loaded, x0, x1 - 1, y0, y1, z0, z1) + scan_y(loaded, x1 - 1, y0, y1, z0, z1)
    }
}

/// The chunks a tick at `p` loads, in scan order: the view box of
/// half-width `d` around `p` without the chunks of `loaded`.
pub open spec fn load_scan(loaded: Seq<ChunkCoord>, p: ChunkCoord, d: int) -> Seq<ChunkCoord> {
    scan_x(loaded, p.x - d, p.x + d + 1, p.y - d, p.y + d + 1, p.z - d, p.z + d + 1)
}

/// `c` comes before the scan position `(x, y, z)` in x-outer, y-middle,
/// z-inner order.
pub open spec fn scanned_before(c: ChunkCoord, x: int, y: int, z: int) -> bool {
    c.x < x || (c.x == x && (c.y < y || (c.y == y && c.z < z)))
}

/// What a sequence holds after one push.
proof fn lemma_push_contains(s: Seq<ChunkCoord>, a: ChunkCoord)
    ensures
        forall|c: ChunkCoord| #[trigger] s.push(a).contains(c) <==> (s.contains(c) || c == a),
{
    let t = s.push(a);
    assert(t[s.len() as int] == a);
    assert forall|c: ChunkCoord| #[trigger] t.contains(c) <==> (s.contains(c) || c == a) by {
        if s.contains(c) {
            let i = choose|i: int| 0 <= i < s.len() && s[i] == c;
            assert(t[i] == c);
        }
        if t.contains(c) && c != a {
            let i = choose|i: int| 0 <= i < t.len() && t[i] == c;
            assert(s[i] == c);
        }
    }
}

/// Pushing an absent element keeps a sequence free of duplicates.
proof fn lemma_push_fresh(s: Seq<ChunkCoord>, a: ChunkCoord)
    requires
        s.no_duplicates(),
        !s.contains(a),
    ensures
        s.push(a).no_duplicates(),
        forall|c: ChunkCoord| #[trigger] s.push(a).contains(c) <==> (s.contains(c) || c == a),
{
    lemma_push_contains(s, a);
    let t = s.push(a);
    assert forall|i: int, j: int| 0 <= i < t.len() && 0 <= j < t.len() && i != j implies t[i] != t[j] by {
        if i < s.len() && j < s.len() {
            assert(t[i] == s[i] && t[j] == s[j]);
        } else if i < s.len() {
            assert(s.contains(t[i]));
        } else {
            assert(s.contains(t[j]));
        }
    }
}

/// Chunks of a tick that were generated and meshed, and the loaded chunks
/// that were dropped with the handles the host should tear down.
#[derive(Debug)]
pub struct TickOutput {
    pub loads: Vec<(ChunkCoord, MeshBuffers)>,
    pub unloaded: Vec<ChunkCoord>,
    pub released: Vec<Handle>,
}

/// What one tick with the observer in chunk `p` does: `old_l` and `old_c`
/// are the controller and the registry contents before it, `new_l` and
/// `new_c` after it, `r` what it hands back.
pub open spec fn tick_post<F: Fn(i64, i64, i64) -> bool>(
    old_l: ChunkLoader,
    new_l: ChunkLoader,
    old_c: Map<ChunkCoord, Seq<Voxel>>,
    new_c: Map<ChunkCoord, Seq<Voxel>>,
    field: F,
    p: ChunkCoord,
    r: TickOutput,
) -> bool {
    &&& new_l.distance() == old_l.distance()
    &&& new_l.position() == Some(p)
    &&& old_l.position() == Some(p) ==> {
        &&& new_l.loaded() == old_l.loaded()
        &&& new_l.handle_map() == old_l.handle_map()
        &&& new_c == old_c
        &&& r.loads@.len() == 0
        &&& r.unloaded@.len() == 0
        &&& r.released@.len() == 0
    }
    &&& old_l.position() != Some(p) ==> {
        &&& load_coords(r.loads@).no_duplicates()
        &&& load_coords(r.loads@) == load_scan(old_l.loaded(), p, old_l.distance())
        &&& forall|c: ChunkCoord| #[trigger] load_coords(r.loads@).contains(c) <==> (
            in_view_box(c, p, old_l.distance()) && !old_l.loaded().contains(c))
        &&& forall|i: int| 0 <= i < r.loads@.len() ==> {
            let c = #[trigger] r.loads@[i].0;
            &&& new_c.contains_key(c)
            &&& generated_by(c, field, new_c[c])
            &&& r.loads@[i].1@ == mesh_of(c, new_c[c], VOXELS_PER_CHUNK as nat)
        }
        &&& forall|c: ChunkCoord| !load_coords(r.loads@).contains(c) ==> {
            &&& #[trigger] new_c.contains_key(c) == old_c.contains_key(c)
            &&& old_c.contains_key(c) ==> new_c[c] == old_c[c]
        }
        &&& r.unloaded@ == match old_l.position() {
            Some(q) => far_chunks(old_l.loaded(), q, old_l.distance()),
            None => Seq::<ChunkCoord>::empty(),
        }
        &&& r.released@.len() == r.unloaded@.len()
        &&& forall|i: int| 0 <= i < r.released@.len() ==> old_l.handle_map().contains_key(r.unloaded@[i])
            && #[trigger] r.released@[i] == old_l.handle_map()[r.unloaded@[i]]
        &&& forall|c: ChunkCoord| #[trigger] new_l.loaded().contains(c) <==> (
            old_l.loaded().contains(c) && !r.unloaded@.contains(c))
        &&& forall|c: ChunkCoord| #[trigger] new_l.handle_map().contains_key(c) ==>
            old_l.handle_map().contains_key(c) && new_l.handle_map()[c] == old_l.handle_map()[c]
    }
}

/// Reconciling twice from the same chunk: the second tick loads nothing,
/// unloads nothing, and leaves the loaded set, the handles and the registry
/// as the first tick left them.
pub proof fn lemma_tick_idempotent<F: Fn(i64, i64, i64) -> bool>(
    l0: ChunkLoader,
    l1: ChunkLoader,
    l2: ChunkLoader,
    c0: Map<ChunkCoord, Seq<Voxel>>,
    c1: Map<ChunkCoord, Seq<Voxel>>,
    c2: Map<ChunkCoord, Seq<Voxel>>,
    field: F,
    p: ChunkCoord,
    r1: TickOutput,
    r2: TickOutput,
)
    requires
        tick_post(l0, l1, c0, c1, field, p, r1),
        tick_post(l1, l2, c1, c2, field, p, r2),
    ensures
        l2.position() == l1.position(),
        l2.loaded() == l1.loaded(),
        l2.handle_map() == l1.handle_map(),
        c2 == c1,
        r2.loads@.len() == 0,
        r2.unloaded@.len() == 0,
        r2.released@.len() == 0,
{
}

/// Streaming state for one observer.
#[derive(Debug)]
pub struct ChunkLoader {
    player_position: Option<ChunkCoord>,
    view_distance: i32,
    loaded_chunks: Vec<ChunkCoord>,
    chunk_entities: Vec<Handle>,
}

impl ChunkLoader {
    /// The observer's last recorded chunk, if a tick has happened.
    pub closed spec fn position(&self) -> Option<ChunkCoord> {
        self.player_position
    }

    /// Radius of the view box, in chunks.
    pub closed spec fn distance(&self) -> int {
        self.view_distance as int
    }

    /// Loaded chunks, in the order they were recorded.
    pub closed spec fn loaded(&self) -> Seq<ChunkCoord> {
        self.loaded_chunks@
    }

    /// Handle of the render object of each loaded chunk.
    pub closed spec fn handle_map(&self) -> Map<ChunkCoord, Handle> {
        Map::new(
            |k: ChunkCoord| self.loaded_chunks@.contains(k),
            |k: ChunkCoord|
                self.chunk_entities@[choose|i: int|
                    0 <= i < self.loaded_chunks@.len() && self.loaded_chunks@[i] == k],
        )
    }

    /// One handle per loaded chunk, no chunk loaded twice, and a view
    /// distance that is not negative.
    pub closed spec fn wf(&self) -> bool {
        &&& self.loaded_chunks@.len() == self.chunk_entities@.len()
        &&& self.loaded_chunks@.no_duplicates()
        &&& self.view_distance >= 0
    }

    proof fn lemma_handle_at(&self, i: int)
        requires
            self.wf(),
            0 <= i < self.loaded_chunks@.len(),
        ensures
            self.handle_map().contains_key(self.loaded_chunks@[i]),
            self.handle_map()[self.loaded_chunks@[i]] == self.chunk_entities@[i],
    {
        let k = self.loaded_chunks@[i];
        assert(self.loaded_chunks@.contains(k));
        let j = choose|j: int| 0 <= j < self.loaded_chunks@.len() && self.loaded_chunks@[j] == k;
        assert(self.loaded_chunks@[j] == k);
    }

    /// The loaded set and the handle map always hold the same chunks.
    pub proof fn lemma_lockstep(&self)
        requires
            self.wf(),
        ensures
            forall|c: ChunkCoord| #[trigger] self.loaded().contains(c) <==> self.handle_map().contains_key(c),
            self.loaded().no_duplicates(),
    {
    }

    /// A controller with nothing loaded and no recorded position, so that
    /// its first tick loads the whole view box. A negative view distance is
    /// refused.
    pub fn new(view_distance: i32) -> (r: Result<ChunkLoader, LoaderError>)
        ensures
            view_distance < 0 <==> r == Err::<ChunkLoader, LoaderError>(LoaderError::NegativeViewDistance),
            r matches Ok(l) ==> {
                &&& l.wf()
                &&& l.position() == None::<ChunkCoord>
                &&& l.distance() == view_distance
                &&& l.loaded() == Seq::<ChunkCoord>::empty()
            },
    {
        if view_distance < 0 {
            Err(LoaderError::NegativeViewDistance)
        } else {
            Ok(ChunkLoader {
                player_position: None,
                view_distance,
                loaded_chunks: Vec::new(),
                chunk_entities: Vec::new(),
            })
        }
    }

    /// The observer's last recorded chunk.
    pub fn player_position(&self) -> (r: Option<ChunkCoord>)
        ensures
            r == self.position(),
    {
        self.player_position
    }

    /// Radius of the view box, in chunks.
    pub fn view_distance(&self) -> (r: i32)
        ensures
            r == self.distance(),
    {
        self.view_distance
    }

    /// Loaded chunks, in the order they were recorded.
    pub fn loaded_chunks(&self) -> (r: Vec<ChunkCoord>)
        ensures
            r@ == self.loaded(),
    {
        self.loaded_chunks.clone()
    }

    fn index_of(&self, coord: ChunkCoord) -> (r: Option<usize>)
        ensures
            match r {
                Some(i) => i < self.loaded_chunks@.len() && self.loaded_chunks@[i as int] == coord,
                None => !self.loaded_chunks@.contains(coord),
            },
    {
        let mut i: usize = 0;
        while i < self.loaded_chunks.len()
            invariant
                0 <= i <= self.loaded_chunks@.len(),
                forall|j: int| 0 <= j < i ==> #[trigger] self.loaded_chunks@[j] != coord,
            decreases self.loaded_chunks@.len() - i,
        {
            if self.loaded_chunks[i] == coord {
                return Some(i);
            }
            i = i + 1;
        }
        None
    }

    /// Whether `coord` is loaded.
    pub fn is_loaded(&self, coord: ChunkCoord) -> (r: bool)
        ensures
            r == self.loaded().contains(coord),
    {
        self.index_of(coord).is_some()
    }

    /// The render handle of a loaded chunk.
    pub fn handle_of(&self, coord: ChunkCoord) -> (r: Option<Handle>)
        requires
            self.wf(),
        ensures
            r.is_some() == self.handle_map().contains_key(coord),
            r matches Some(h) ==> h == self.handle_map()[coord],
    {
        match self.index_of(coord) {
            Some(i) => {
                proof {
                    self.lemma_handle_at(i as int);
                }
                Some(self.chunk_entities[i])
            },
            None => None,
        }
    }

    /// Loaded chunks, in order, whose Manhattan distance from `position`
    /// exceeds the view distance.
    pub fn get_chunks_to_unload(&self, position: ChunkCoord) -> (r: Vec<ChunkCoord>)
        ensures
            r@ == far_chunks(self.loaded(), position, self.distance()),
    {
        let mut r: Vec<ChunkCoord> = Vec::new();
        let mut i: usize = 0;
        let d = self.view_distance as i64;
        while i < self.loaded_chunks.len()
            invariant
                0 <= i <= self.loaded_chunks@.len(),
                d == self.view_distance,
                r@ == far_chunks(self.loaded_chunks@.take(i as int), position, d as int),
            decreases self.loaded_chunks@.len() - i,
        {
            let c = self.loaded_chunks[i];
            assert(self.loaded_chunks@.take(i + 1).drop_last() =~= self.loaded_chunks@.take(i as int));
            if manhattan_distance(c, position) > d {
                r.push(c);
            }
            i = i + 1;
        }
        assert(self.loaded_chunks@.take(i as int) =~= self.loaded_chunks@);
        r
    }
    /// Chunks in the view box of half-width `view_distance` around
    /// `position` that are not loaded yet, each once, scanned x-outer,
    /// y-middle, z-inner.
    pub fn get_chunks_to_load(&self, position: ChunkCoord) -> (r: Vec<ChunkCoord>)
        requires
            self.wf(),
            box_fits(position, self.distance()),
        ensures
            r@.no_duplicates(),
            forall|c: ChunkCoord| #[trigger] r@.contains(c) <==> (in_view_box(c, position, self.distance())
                && !self.loaded().contains(c)),
            r@ == load_scan(self.loaded(), position, self.distance()),
    {
        let d = self.view_distance as i64;
        let mut r: Vec<ChunkCoord> = Vec::new();
        let mut x: i64 = position.x as i64 - d;
        while x <= position.x as i64 + d
            invariant
                self.wf(),
                d == self.view_distance,
                box_fits(position, d as int),
                position.x - d <= x <= position.x + d + 1,
                r@.no_duplicates(),
                forall|c: ChunkCoord| #[trigger] r@.contains(c) <==> (in_view_box(c, position, d as int)
                    && !self.loaded_chunks@.contains(c) && c.x < x),
                r@ == scan_x(self.loaded_chunks@, position.x - d, x as int, position.y - d, position.y + d + 1, position.z - d, position.z + d + 1),
            decreases position.x + d + 1 - x,
        {
            let mut y: i64 = position.y as i64 - d;
            while y <= position.y as i64 + d
                invariant
                    self.wf(),
                    d == self.view_distance,
                    box_fits(position, d as int),
                    position.x - d <= x <= position.x + d,
                    position.y - d <= y <= position.y + d + 1,
                    r@.no_duplicates(),
                    forall|c: ChunkCoord| #[trigger] r@.contains(c) <==> (in_view_box(c, position, d as int)
                        && !self.loaded_chunks@.contains(c) && (c.x < x || (c.x == x && c.y < y))),
                    r@ == scan_x(self.loaded_chunks@, position.x - d, x as int, position.y - d, position.y + d + 1, position.z - d, position.z + d + 1) + scan_y(self.loaded_chunks@, x as int,
                        position.y - d, y as int, position.z - d, position.z + d + 1),
                decreases position.y + d + 1 - y,
            {
                let mut z: i64 = position.z as i64 - d;
                while z <= position.z as i64 + d
                    invariant
                        self.wf(),
                        d == self.view_distance,
                        box_fits(position, d as int),
                        position.x - d <= x <= position.x + d,
                        position.y - d <= y <= position.y + d,
                        position.z - d <= z <= position.z + d + 1,
                        r@.no_duplicates(),
                        forall|c: ChunkCoord| #[trigger] r@.contains(c) <==> (in_view_box(c, position, d as int)
                            && !self.loaded_chunks@.contains(c) && scanned_before(c, x as int, y as int, z as int)),
                        r@ == scan_x(self.loaded_chunks@, position.x - d, x as int, position.y - d, position.y + d + 1, position.z - d, position.z + d + 1) + scan_y(self.loaded_chunks@, x as int,
                            position.y - d, y as int, position.z - d, position.z + d + 1) + scan_z(self.loaded_chunks@, x as int, y as int, position.z - d,
                            z as int),
                    decreases position.z + d + 1 - z,
                {
                    let c = ChunkCoord { x: x as i32, y: y as i32, z: z as i32 };
                    let ghost a = scan_x(self.loaded_chunks@, position.x - d, x as int, position.y - d, position.y + d + 1, position.z - d, position.z + d + 1);
                    let ghost b = scan_y(self.loaded_chunks@, x as int, position.y - d, y as int, position.z - d, position.z + d + 1);
                    let ghost row = scan_z(self.loaded_chunks@, x as int, y as int, position.z - d, z as int);
                    if !self.is_loaded(c) {
                        proof {
                            lemma_push_fresh(r@, c);
                        }
                        r.push(c);
                        assert(r@ =~= a + b + row.push(c));
                    }
                    z = z + 1;
                }
                proof {
                    let a = scan_x(self.loaded_chunks@, position.x - d, x as int, position.y - d, position.y + d + 1, position.z - d, position.z + d + 1);
                    let b = scan_y(self.loaded_chunks@, x as int, position.y - d, y as int, position.z - d, position.z + d + 1);
                    let row = scan_z(self.loaded_chunks@, x as int, y as int, position.z - d, z as int);
                    assert(a + b + row =~= a + (b + row));
                }
                y = y + 1;
            }
            proof {
                let a = scan_x(self.loaded_chunks@, position.x - d, x as int, position.y - d, position.y + d + 1, position.z - d, position.z + d + 1);
                let b = scan_y(self.loaded_chunks@, x as int, position.y - d, y as int, position.z - d, position.z + d + 1);
                assert(b == scan_y(self.loaded_chunks@, x as int, position.y - d, position.y + d + 1, position.z - d, position.z + d + 1));
            }
            x = x + 1;
        }
        r
    }
    /// Drops `coord` from the loaded set together with its handle, which is
    /// returned; `None` when `coord` was not loaded.
    pub fn unload_chunk(&mut self, coord: ChunkCoord) -> (r: Option<Handle>)
        requires
            old(self).wf(),
        ensures
            final(self).wf(),
            final(self).position() == old(self).position(),
            final(self).distance() == old(self).distance(),
            r.is_some() == old(self).loaded().contains(coord),
            r matches Some(h) ==> h == old(self).handle_map()[coord],
            forall|c: ChunkCoord| #[trigger] final(self).loaded().contains(c) <==> (old(self).loaded().contains(c) && c != coord),
            final(self).handle_map() == old(self).handle_map().remove(coord),
            !old(self).loaded().contains(coord) ==> final(self).loaded() == old(self).loaded(),
            old(self).loaded().contains(coord) ==> exists|i: int|
                0 <= i < old(self).loaded().len() && old(self).loaded()[i] == coord && final(self).loaded()
                    == old(self).loaded().remove(i),
    {
        let ghost old_self = *self;
        let ghost old_map = self.handle_map();
        match self.index_of(coord) {
            Some(i) => {
                proof {
                    self.lemma_handle_at(i as int);
                }
                let ghost prev = self.loaded_chunks@;
                self.loaded_chunks.remove(i);
                let h = self.chunk_entities.remove(i);
                proof {
                    let s = self.loaded_chunks@;
                    assert forall|j: int| 0 <= j < s.len() implies #[trigger] s[j] == prev[if j < i { j } else { j + 1 }] by {}
                    assert(s.no_duplicates()) by {
                        assert forall|a: int, b: int| 0 <= a < s.len() && 0 <= b < s.len() && a != b implies s[a] != s[b] by {
                            assert(s[a] == prev[if a < i { a } else { a + 1 }]);
                            assert(s[b] == prev[if b < i { b } else { b + 1 }]);
                        }
                    }
                    assert forall|c: ChunkCoord| #[trigger] s.contains(c) <==> (prev.contains(c) && c != coord) by {
                        if s.contains(c) {
                            let j = choose|j: int| 0 <= j < s.len() && s[j] == c;
                            let jj = if j < i { j } else { j + 1 };
                            assert(prev[jj] == c);
                        }
                        if prev.contains(c) && c != coord {
                            let j = choose|j: int| 0 <= j < prev.len() && prev[j] == c;
                            assert(j != i);
                            let jj = if j < i { j } else { j - 1 };
                            assert(s[jj] == c);
                        }
                    }
                    assert forall|k: ChunkCoord|
                        #![trigger self.handle_map().dom().contains(k)]
                        self.handle_map().dom().contains(k) == old_map.remove(coord).dom().contains(k)
                        && (self.handle_map().dom().contains(k) ==> self.handle_map()[k] == old_map.remove(coord)[k]) by {
                        if s.contains(k) {
                            let j = choose|j: int| 0 <= j < s.len() && s[j] == k;
                            let jj = if j < i { j } else { j + 1 };
                            self.lemma_handle_at(j);
                            old_self.lemma_handle_at(jj);
                        }
                    }
                    assert(self.handle_map() =~= old_map.remove(coord));
                    assert(prev[i as int] == coord && self.loaded_chunks@ == prev.remove(i as int));
                }
                Some(h)
            },
            None => {
                assert(self.handle_map() =~= old_map.remove(coord));
                None
            },
        }
    }

    /// Records that the host made the render object `handle` for `coord`:
    /// the chunk joins the loaded set. A handle recorded earlier for the same
    /// chunk is replaced and returned.
    pub fn record_loaded(&mut self, coord: ChunkCoord, handle: Handle) -> (r: Option<Handle>)
        requires
            old(self).wf(),
        ensures
            final(self).wf(),
            final(self).position() == old(self).position(),
            final(self).distance() == old(self).distance(),
            r.is_some() == old(self).loaded().contains(coord),
            r matches Some(h) ==> h == old(self).handle_map()[coord],
            forall|c: ChunkCoord| #[trigger] final(self).loaded().contains(c) <==> (old(self).loaded().contains(c) || c == coord),
            final(self).handle_map() == old(self).handle_map().insert(coord, handle),
            !old(self).loaded().contains(coord) ==> final(self).loaded() == old(self).loaded().push(coord),
            old(self).loaded().contains(coord) ==> final(self).loaded() == old(self).loaded(),
    {
        let ghost old_self = *self;
        let ghost old_map = self.handle_map();
        match self.index_of(coord) {
            Some(i) => {
                proof {
                    self.lemma_handle_at(i as int);
                }
                let prev_handle = self.chunk_entities[i];
                self.chunk_entities.set(i, handle);
                proof {
                    assert forall|k: ChunkCoord|
                        #![trigger self.handle_map().dom().contains(k)]
                        self.handle_map().dom().contains(k) == old_map.insert(coord, handle).dom().contains(k)
                        && (self.handle_map().dom().contains(k) ==> self.handle_map()[k] == old_map.insert(coord, handle)[k]) by {
                        if self.loaded_chunks@.contains(k) {
                            let j = choose|j: int| 0 <= j < self.loaded_chunks@.len() && self.loaded_chunks@[j] == k;
                            self.lemma_handle_at(j);
                            old_self.lemma_handle_at(j);
                        }
                    }
                    assert(self.handle_map() =~= old_map.insert(coord, handle));
                }
                Some(prev_handle)
            },
            None => {
                let ghost prev = self.loaded_chunks@;
                proof {
                    lemma_push_fresh(prev, coord);
                }
                self.loaded_chunks.push(coord);
                self.chunk_entities.push(handle);
                proof {
                    let n = prev.len() as int;
                    assert forall|k: ChunkCoord|
                        #![trigger self.handle_map().dom().contains(k)]
                        self.handle_map().dom().contains(k) == old_map.insert(coord, handle).dom().contains(k)
                        && (self.handle_map().dom().contains(k) ==> self.handle_map()[k] == old_map.insert(coord, handle)[k]) by {
                        if k == coord {
                            self.lemma_handle_at(n);
                        } else if self.loaded_chunks@.contains(k) {
                            let j = choose|j: int| 0 <= j < self.loaded_chunks@.len() && self.loaded_chunks@[j] == k;
                            assert(j < n);
                            self.lemma_handle_at(j);
                            old_self.lemma_handle_at(j);
                        }
                    }
                    assert(self.handle_map() =~= old_map.insert(coord, handle));
                }
                None
            },
        }
    }

    /// Generates the chunk at `coord` from `field`, stores it in `chunks`
    /// and returns its mesh.
    pub fn load_chunk<F: Fn(i64, i64, i64) -> bool>(
        &self,
        coord: ChunkCoord,
        chunks: &mut ChunkMap,
        field: &F,
    ) -> (r: MeshBuffers)
        requires
            old(chunks).wf(),
            forall|a: (i64, i64, i64)| #[trigger] field.requires(a),
        ensures
            final(chunks).wf(),
            final(chunks).contents() == old(chunks).contents().insert(coord, final(chunks).contents()[coord]),
            generated_by(coord, *field, final(chunks).contents()[coord]),
            r@ == mesh_of(coord, final(chunks).contents()[coord], VOXELS_PER_CHUNK as nat),
    {
        let voxels = generate_voxel_data(coord, field);
        let chunk = Chunk { voxels };
        let mesh = generate_mesh(coord, &chunk);
        let ghost v = chunk.voxels@;
        chunks.insert(coord, chunk);
        assert(chunks.contents()[coord] == v);
        mesh
    }
    /// One tick of reconciliation with the observer now in `new_position`.
    ///
    /// If that is the recorded position nothing happens. Otherwise every
    /// chunk of the view box around `new_position` that is not loaded is
    /// generated from `field`, stored in `chunks` and meshed; every loaded
    /// chunk farther than the view distance (Manhattan) from the previous
    /// position is unloaded and its handle released; and `new_position` is
    /// recorded. The generated chunks stay in `chunks` after they unload.
    pub fn update_player_position<F: Fn(i64, i64, i64) -> bool>(
        &mut self,
        new_position: ChunkCoord,
        chunks: &mut ChunkMap,
        field: &F,
    ) -> (r: TickOutput)
        requires
            old(self).wf(),
            old(chunks).wf(),
            box_fits(new_position, old(self).distance()),
            forall|a: (i64, i64, i64)| #[trigger] field.requires(a),
        ensures
            final(self).wf(),
            final(chunks).wf(),
            tick_post(*old(self), *final(self), old(chunks).contents(), final(chunks).contents(), *field, new_position, r),
    {
        let mut out = TickOutput { loads: Vec::new(), unloaded: Vec::new(), released: Vec::new() };
        if self.player_position == Some(new_position) {
            return out;
        }
        let ghost old_self = *self;
        let ghost old_chunks = chunks.contents();
        let to_load = self.get_chunks_to_load(new_position);
        let to_unload = match self.player_position {
            Some(p) => self.get_chunks_to_unload(p),
            None => Vec::new(),
        };
        proof {
            match old_self.player_position {
                Some(p) => {
                    lemma_far_chunks_distinct(old_self.loaded_chunks@, p, old_self.view_distance as int);
                    assert forall|c: ChunkCoord| #[trigger] to_unload@.contains(c) implies old_self.loaded_chunks@.contains(c) by {
                        lemma_far_chunks_contains(old_self.loaded_chunks@, p, old_self.view_distance as int, c);
                    }
                },
                None => {},
            }
        }

        let mut k: usize = 0;
        while k < to_load.len()
            invariant
                *self == old_self,
                chunks.wf(),
                0 <= k <= to_load@.len(),
                to_load@.no_duplicates(),
                out.loads@.len() == k,
                out.unloaded@.len() == 0,
                out.released@.len() == 0,
                forall|a: (i64, i64, i64)| #[trigger] field.requires(a),
                forall|i: int| 0 <= i < k ==> (#[trigger] out.loads@[i]).0 == to_load@[i],
                forall|i: int| 0 <= i < k ==> {
                    let c = #[trigger] to_load@[i];
                    &&& chunks.contents().contains_key(c)
                    &&& generated_by(c, *field, chunks.contents()[c])
                    &&& out.loads@[i].1@ == mesh_of(c, chunks.contents()[c], VOXELS_PER_CHUNK as nat)
                },
                forall|c: ChunkCoord| !to_load@.take(k as int).contains(c) ==> {
                    &&& #[trigger] chunks.contents().contains_key(c) == old_chunks.contains_key(c)
                    &&& old_chunks.contains_key(c) ==> chunks.contents()[c] == old_chunks[c]
                },
            decreases to_load@.len() - k,
        {
            let c = to_load[k];
            let ghost before = chunks.contents();
            let mesh = self.load_chunk(c, chunks, field);
            out.loads.push((c, mesh));
            proof {
                assert(to_load@.take(k + 1) =~= to_load@.take(k as int).push(c));
                lemma_push_contains(to_load@.take(k as int), c);
                assert forall|i: int| 0 <= i < k implies #[trigger] to_load@[i] != c by {}
                assert forall|i: int| 0 <= i <= k implies (#[trigger] out.loads@[i]).0 == to_load@[i] by {}
                assert forall|c2: ChunkCoord| !to_load@.take(k + 1).contains(c2) implies {
                    &&& #[trigger] chunks.contents().contains_key(c2) == old_chunks.contains_key(c2)
                    &&& old_chunks.contains_key(c2) ==> chunks.contents()[c2] == old_chunks[c2]
                } by {
                    assert(c2 != c);
                    assert(!to_load@.take(k as int).contains(c2));
                }
            }
            k = k + 1;
        }
        proof {
            assert(to_load@.take(k as int) =~= to_load@);
            assert(load_coords(out.loads@) =~= to_load@);
            assert forall|i: int| 0 <= i < out.loads@.len() implies {
                let c = #[trigger] out.loads@[i].0;
                &&& chunks.contents().contains_key(c)
                &&& generated_by(c, *field, chunks.contents()[c])
                &&& out.loads@[i].1@ == mesh_of(c, chunks.contents()[c], VOXELS_PER_CHUNK as nat)
            } by {
                assert(out.loads@[i].0 == to_load@[i]);
            }
        }

        let mut j: usize = 0;
        while j < to_unload.len()
            invariant
                chunks.wf(),
                load_coords(out.loads@).no_duplicates(),
                load_coords(out.loads@) == load_scan(old_self.loaded(), new_position, old_self.distance()),
                forall|c: ChunkCoord| #[trigger] load_coords(out.loads@).contains(c) <==> (
                    in_view_box(c, new_position, old_self.distance()) && !old_self.loaded().contains(c)),
                forall|i: int| 0 <= i < out.loads@.len() ==> {
                    let c = #[trigger] out.loads@[i].0;
                    &&& chunks.contents().contains_key(c)
                    &&& generated_by(c, *field, chunks.contents()[c])
                    &&& out.loads@[i].1@ == mesh_of(c, chunks.contents()[c], VOXELS_PER_CHUNK as nat)
                },
                forall|c: ChunkCoord| !load_coords(out.loads@).contains(c) ==> {
                    &&& #[trigger] chunks.contents().contains_key(c) == old_chunks.contains_key(c)
                    &&& old_chunks.contains_key(c) ==> chunks.contents()[c] == old_chunks[c]
                },
                self.wf(),
                old_self.wf(),
                self.player_position == old_self.player_position,
                self.view_distance == old_self.view_distance,
                0 <= j <= to_unload@.len(),
                to_unload@.no_duplicates(),
                forall|c: ChunkCoord| #[trigger] to_unload@.contains(c) ==> old_self.loaded_chunks@.contains(c),
                out.unloaded@ == to_unload@.take(j as int),
                out.released@.len() == j,
                forall|i: int| 0 <= i < j ==> #[trigger] out.released@[i] == old_self.handle_map()[to_unload@[i]],
                forall|c: ChunkCoord| #[trigger] self.loaded().contains(c) <==> (old_self.loaded().contains(c)
                    && !to_unload@.take(j as int).contains(c)),
                forall|c: ChunkCoord| #[trigger] self.handle_map().contains_key(c) ==> old_self.handle_map().contains_key(c)
                    && self.handle_map()[c] == old_self.handle_map()[c],
            decreases to_unload@.len() - j,
        {
            let c = to_unload[j];
            proof {
                assert(to_unload@.contains(c));
                if to_unload@.take(j as int).contains(c) {
                    let i = choose|i: int| 0 <= i < j && to_unload@.take(j as int)[i] == c;
                    assert(to_unload@[i] == to_unload@[j as int]);
                }
                assert(self.loaded().contains(c));
                self.lemma_lockstep();
            }
            let ghost mid = *self;
            let ghost prev_released = out.released@;
            let h = self.unload_chunk(c);
            match h {
                Some(h) => {
                    out.released.push(h);
                },
                None => {},
            }
            out.unloaded.push(c);
            proof {
                assert(to_unload@.take(j + 1) =~= to_unload@.take(j as int).push(c));
                lemma_push_contains(to_unload@.take(j as int), c);
                assert forall|i: int| 0 <= i < j + 1 implies #[trigger] out.released@[i] == old_self.handle_map()[to_unload@[i]] by {
                    if i < j {
                        assert(out.released@[i] == prev_released[i]);
                    }
                }
                assert forall|c2: ChunkCoord| #[trigger] self.handle_map().contains_key(c2) implies old_self.handle_map().contains_key(c2)
                    && self.handle_map()[c2] == old_self.handle_map()[c2] by {
                    assert(mid.handle_map().contains_key(c2));
                }
            }
            j = j + 1;
        }
        proof {
            assert(to_unload@.take(j as int) =~= to_unload@);
        }
        let ghost pre = *self;
        self.player_position = Some(new_position);
        proof {
            assert(self.loaded() == pre.loaded());
            assert(self.handle_map() =~= pre.handle_map());
            old_self.lemma_lockstep();
            assert forall|i: int| 0 <= i < out.unloaded@.len() implies old_self.handle_map().contains_key(
                #[trigger] out.unloaded@[i]) by {
                assert(to_unload@.contains(out.unloaded@[i]));
            }
            assert(old_self.position() != Some(new_position) ==> {
                &&& load_coords(out.loads@).no_duplicates()
                &&& load_coords(out.loads@) == load_scan(old_self.loaded(), new_position, old_self.distance())
                &&& forall|c: ChunkCoord| #[trigger] load_coords(out.loads@).contains(c) <==> (
                    in_view_box(c, new_position, old_self.distance()) && !old_self.loaded().contains(c))
                &&& forall|i: int| 0 <= i < out.loads@.len() ==> {
                    let c = #[trigger] out.loads@[i].0;
                    &&& chunks.contents().contains_key(c)
                    &&& generated_by(c, *field, chunks.contents()[c])
                    &&& out.loads@[i].1@ == mesh_of(c, chunks.contents()[c], VOXELS_PER_CHUNK as nat)
                }
                &&& forall|c: ChunkCoord| !load_coords(out.loads@).contains(c) ==> {
                    &&& #[trigger] chunks.contents().contains_key(c) == old_chunks.contains_key(c)
                    &&& old_chunks.contains_key(c) ==> chunks.contents()[c] == old_chunks[c]
                }
                &&& out.unloaded@ == match old_self.position() {
                    Some(q) => far_chunks(old_self.loaded(), q, old_self.distance()),
                    None => Seq::<ChunkCoord>::empty(),
                }
                &&& out.released@.len() == out.unloaded@.len()
                &&& forall|i: int| 0 <= i < out.released@.len() ==> old_self.handle_map().contains_key(out.unloaded@[i])
                    && #[trigger] out.released@[i] == old_self.handle_map()[out.unloaded@[i]]
                &&& forall|c: ChunkCoord| #[trigger] self.loaded().contains(c) <==> (
                    old_self.loaded().contains(c) && !out.unloaded@.contains(c))
                &&& forall|c: ChunkCoord| #[trigger] self.handle_map().contains_key(c) ==>
                    old_self.handle_map().contains_key(c) && self.handle_map()[c] == old_self.handle_map()[c]
            });
        }
        out
    }
    /// One tick with the observer at the world voxel `(x, y, z)`: finds the
    /// chunk that holds it by floored division, then reconciles as
    /// `update_player_position` does.
    pub fn tick<F: Fn(i64, i64, i64) -> bool>(
        &mut self,
        x: i32,
        y: i32,
        z: i32,
        chunks: &mut ChunkMap,
        field: &F,
    ) -> (r: TickOutput)
        requires
            old(self).wf(),
            old(chunks).wf(),
            box_fits(chunk_at(x as int, y as int, z as int), old(self).distance()),
            forall|a: (i64, i64, i64)| #[trigger] field.requires(a),
        ensures
            final(self).wf(),
            final(chunks).wf(),
            tick_post(
                *old(self),
                *final(self),
                old(chunks).contents(),
                final(chunks).contents(),
                *field,
                chunk_at(x as int, y as int, z as int),
                r,
            ),
    {
        let position = chunk_of_world(x, y, z);
        self.update_player_position(position, chunks, field)
    }
}

} // verus!
