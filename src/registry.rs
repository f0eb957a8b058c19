//! The chunk registry: the owning store of generated chunks, at most one per
//! coordinate.

use vstd::prelude::*;
use crate::coord::ChunkCoord;
use crate::voxel::{Chunk, Voxel};

verus! {

/// Generated chunks keyed by chunk coordinate. Inserting at a coordinate that
/// is already present replaces its chunk.
#[derive(Debug)]
pub struct ChunkMap {
    entries: Vec<(ChunkCoord, Chunk)>,
}

impl ChunkMap {
    /// Keys are unique and every stored chunk is full.
    pub closed spec fn wf(&self) -> bool {
        &&& forall|i: int, j: int|
            0 <= i < j < self.entries@.len() ==> #[trigger] self.entries@[i].0 != #[trigger] self.entries@[j].0
        &&& forall|i: int| 0 <= i < self.entries@.len() ==> (#[trigger] self.entries@[i]).1.wf()
    }

    /// Voxels of the chunk stored at each coordinate.
    pub closed spec fn contents(&self) -> Map<ChunkCoord, Seq<Voxel>> {
        Map::new(
            |k: ChunkCoord| exists|i: int| 0 <= i < self.entries@.len() && self.entries@[i].0 == k,
            |k: ChunkCoord|
                self.entries@[choose|i: int| 0 <= i < self.entries@.len() && self.entries@[i].0 == k].1.voxels@,
        )
    }

    proof fn lemma_lookup(&self, k: ChunkCoord, i: int)
        requires
            self.wf(),
            0 <= i < self.entries@.len(),
            self.entries@[i].0 == k,
        ensures
            self.contents().contains_key(k),
            self.contents()[k] == self.entries@[i].1.voxels@,
    {
        let j = choose|j: int| 0 <= j < self.entries@.len() && self.entries@[j].0 == k;
        assert(0 <= j < self.entries@.len() && self.entries@[j].0 == k);
        if j < i {
            assert(self.entries@[j].0 != self.entries@[i].0);
        } else if i < j {
            assert(self.entries@[i].0 != self.entries@[j].0);
        }
    }

    /// An empty registry.
    pub fn new() -> (r: ChunkMap)
        ensures
            r.wf(),
            r.contents() == Map::<ChunkCoord, Seq<Voxel>>::empty(),
    {
        let r = ChunkMap { entries: Vec::new() };
        assert(r.contents() =~= Map::<ChunkCoord, Seq<Voxel>>::empty());
        r
    }

    fn find(&self, coord: ChunkCoord) -> (r: Option<usize>)
        ensures
            match r {
                Some(i) => i < self.entries@.len() && self.entries@[i as int].0 == coord,
                None => forall|i: int| 0 <= i < self.entries@.len() ==> #[trigger] self.entries@[i].0 != coord,
            },
    {
        let mut i: usize = 0;
        while i < self.entries.len()
            invariant
                0 <= i <= self.entries@.len(),
                forall|j: int| 0 <= j < i ==> #[trigger] self.entries@[j].0 != coord,
            decreases self.entries@.len() - i,
        {
            if self.entries[i].0 == coord {
                return Some(i);
            }
            i = i + 1;
        }
        None
    }

    /// Whether a chunk is stored at `coord`.
    pub fn contains_key(&self, coord: ChunkCoord) -> (r: bool)
        requires
            self.wf(),
        ensures
            r == self.contents().contains_key(coord),
    {
        match self.find(coord) {
            Some(i) => {
                proof {
                    self.lemma_lookup(coord, i as int);
                }
                true
            },
            None => false,
        }
    }

    /// Stores `chunk` at `coord`, replacing any chunk stored there.
    pub fn insert(&mut self, coord: ChunkCoord, chunk: Chunk)
        requires
            old(self).wf(),
            chunk.wf(),
        ensures
            final(self).wf(),
            final(self).contents() == old(self).contents().insert(coord, chunk.voxels@),
    {
        let ghost old_map = self.contents();
        let ghost voxels = chunk.voxels@;
        match self.find(coord) {
            Some(i) => {
                let ghost prev = self.entries@;
                self.entries.set(i, (coord, chunk));
                proof {
                    assert forall|k: ChunkCoord|
                        #![trigger self.contents().dom().contains(k)]
                        self.contents().dom().contains(k) == old_map.insert(coord, voxels).dom().contains(k)
                        && (self.contents().dom().contains(k) ==> self.contents()[k] == old_map.insert(coord, voxels)[k]) by {
                        if k == coord {
                            self.lemma_lookup(k, i as int);
                        } else if old_map.contains_key(k) {
                            let j = choose|j: int| 0 <= j < prev.len() && prev[j].0 == k;
                            assert(self.entries@[j] == prev[j]);
                            self.lemma_lookup(k, j);
                        } else if self.contents().contains_key(k) {
                            let j = choose|j: int| 0 <= j < self.entries@.len() && self.entries@[j].0 == k;
                            assert(self.entries@[j] == prev[j]);
                        }
                    }
                    assert(self.contents() =~= old_map.insert(coord, voxels));
                }
            },
            None => {
                let ghost prev = self.entries@;
                self.entries.push((coord, chunk));
                proof {
                    let n = prev.len() as int;
                    assert forall|k: ChunkCoord|
                        #![trigger self.contents().dom().contains(k)]
                        self.contents().dom().contains(k) == old_map.insert(coord, voxels).dom().contains(k)
                        && (self.contents().dom().contains(k) ==> self.contents()[k] == old_map.insert(coord, voxels)[k]) by {
                        if k == coord {
                            self.lemma_lookup(k, n);
                        } else if old_map.contains_key(k) {
                            let j = choose|j: int| 0 <= j < prev.len() && prev[j].0 == k;
                            assert(self.entries@[j] == prev[j]);
                            self.lemma_lookup(k, j);
                        } else if self.contents().contains_key(k) {
                            let j = choose|j: int| 0 <= j < self.entries@.len() && self.entries@[j].0 == k;
                            assert(self.entries@[j] == prev[j]);
                        }
                    }
                    assert(self.contents() =~= old_map.insert(coord, voxels));
                }
            },
        }
    }

    /// The chunk stored at `coord`, if any.
    pub fn get(&self, coord: ChunkCoord) -> (r: Option<&Chunk>)
        requires
            self.wf(),
        ensures
            r.is_some() == self.contents().contains_key(coord),
            r matches Some(c) ==> c.wf() && c.voxels@ == self.contents()[coord],
    {
        match self.find(coord) {
            Some(i) => {
                proof {
                    self.lemma_lookup(coord, i as int);
                }
                Some(&self.entries[i].1)
            },
            None => None,
        }
    }

    /// Drops the chunk stored at `coord`; tells whether there was one.
    pub fn remove(&mut self, coord: ChunkCoord) -> (r: bool)
        requires
            old(self).wf(),
        ensures
            final(self).wf(),
            r == old(self).contents().contains_key(coord),
            final(self).contents() == old(self).contents().remove(coord),
    {
        let ghost old_map = self.contents();
        match self.find(coord) {
            Some(i) => {
                proof {
                    self.lemma_lookup(coord, i as int);
                }
                let ghost prev = self.entries@;
                let _removed = self.entries.remove(i);
                proof {
                    assert forall|j: int| 0 <= j < self.entries@.len() implies #[trigger] self.entries@[j]
                        == prev[if j < i { j } else { j + 1 }] by {}
                    assert forall|k: ChunkCoord|
                        #![trigger self.contents().dom().contains(k)]
                        self.contents().dom().contains(k) == old_map.remove(coord).dom().contains(k)
                        && (self.contents().dom().contains(k) ==> self.contents()[k] == old_map.remove(coord)[k]) by {
                        if old_map.contains_key(k) && k != coord {
                            let j = choose|j: int| 0 <= j < prev.len() && prev[j].0 == k;
                            let jj = if j < i { j } else { j - 1 };
                            assert(self.entries@[jj] == prev[j]);
                            self.lemma_lookup(k, jj);
                        } else if self.contents().contains_key(k) {
                            let j = choose|j: int| 0 <= j < self.entries@.len() && self.entries@[j].0 == k;
                            let jj = if j < i { j } else { j + 1 };
                            assert(self.entries@[j] == prev[jj]);
                        }
                    }
                    assert(self.contents() =~= old_map.remove(coord));
                }
                true
            },
            None => {
                assert(self.contents() =~= old_map.remove(coord));
                false
            },
        }
    }
}

} // verus!
