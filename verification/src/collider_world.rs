use crate::chunk::VoxelChunk;
use crate::chunk_map::VoxelChunkMap;
use crate::matrix::{lemma_flatten_roundtrip, MatrixIndex};
use vstd::prelude::*;

verus! {

/// What is to be done with the collider of a chunk whose shape changed.
#[derive(Clone, Copy, Debug, PartialEq, Eq, Structural)]
pub enum ColliderUpdate {
    /// The chunk has no solid cell: its collider, if it had one (the entity's bits), goes.
    Remove { index: MatrixIndex, old: Option<u64> },
    /// The chunk's collider is to be built anew from its shape.
    Rebuild { index: MatrixIndex },
}

/// The chunk that an update is about.
pub open spec fn update_index(u: ColliderUpdate) -> MatrixIndex {
    match u {
        ColliderUpdate::Remove { index, .. } => index,
        ColliderUpdate::Rebuild { index } => index,
    }
}

/// The update that a chunk's collision shape `v` calls for.
pub open spec fn update_for(index: MatrixIndex, v: VoxelChunk) -> ColliderUpdate {
    if v.voxels == 0 {
        ColliderUpdate::Remove { index, old: v.collider }
    } else {
        ColliderUpdate::Rebuild { index }
    }
}

/// A chunk's collision shape once its update is planned: no longer marked, and without a
/// collider when it has no solid cell.
pub open spec fn planned(v: VoxelChunk) -> VoxelChunk {
    VoxelChunk {
        voxels_modified: false,
        collider: if v.voxels == 0 {
            None
        } else {
            v.collider
        },
        ..v
    }
}

/// `r` lists, in row order, the updates of the marked chunks among the first `n` places of
/// `m`.
pub open spec fn lists_updates(m: Seq<Option<VoxelChunk>>, r: Seq<ColliderUpdate>, n: int) -> bool {
    &&& forall|j: int|
        0 <= j < r.len() ==> {
            let k = update_index(#[trigger] r[j]).flat();
            &&& 0 <= k < n
            &&& m[k] is Some
            &&& m[k].unwrap().voxels_modified
            &&& r[j] == update_for(update_index(r[j]), m[k].unwrap())
        }
    &&& forall|i: int, j: int|
        0 <= i < j < r.len() ==> update_index(#[trigger] r[i]).flat() < update_index(#[trigger] r[j]).flat()
    &&& forall|k: int|
        0 <= k < n && #[trigger] m[k] is Some && m[k].unwrap().voxels_modified ==> exists|j: int|
            0 <= j < r.len() && update_index(#[trigger] r[j]).flat() == k
}

impl VoxelChunkMap {
    /// Plans the collider updates of the chunks whose shape changed, in row order: a chunk
    /// without solid cells loses its collider, any other gets a new one. The marks are
    /// cleared, and the colliders of the chunks without solid cells are forgotten here; the
    /// caller removes and builds the colliders themselves.
    pub fn update_colliders(&mut self) -> (r: Vec<ColliderUpdate>)
        requires
            old(self).wf(),
        ensures
            final(self).wf(),
            final(self).chunks.len == old(self).chunks.len,
            lists_updates(old(self).chunks.matrix@, r@, 65536),
            forall|k: int|
                0 <= k < 65536 ==> #[trigger] final(self).chunks.matrix@[k] == match old(self).chunks.matrix@[k] {
                    Some(v) => Some(
                        if v.voxels_modified {
                            planned(v)
                        } else {
                            v
                        },
                    ),
                    None => None,
                },
    {
        let ghost m0 = self.chunks.matrix@;
        let mut out: Vec<ColliderUpdate> = Vec::new();
        let mut k: u32 = 0;
        while k < 65536
            invariant
                k <= 65536,
                self.wf(),
                self.chunks.len == old(self).chunks.len,
                m0 == old(self).chunks.matrix@,
                m0.len() == 65536,
                lists_updates(m0, out@, k as int),
                forall|j: int|
                    0 <= j < 65536 ==> #[trigger] self.chunks.matrix@[j] == if j < k {
                        match m0[j] {
                            Some(v) => Some(
                                if v.voxels_modified {
                                    planned(v)
                                } else {
                                    v
                                },
                            ),
                            None => None,
                        }
                    } else {
                        m0[j]
                    },
            decreases 65536 - k,
        {
            let index = MatrixIndex::from(k as u16);
            let ghost before = self.chunks.matrix@;
            let ghost out0 = out@;
            proof {
                lemma_flatten_roundtrip(index, 0);
                assert(index.flat() == k);
            }
            match self.chunks.get_mut(index) {
                Some(v) => {
                    if v.voxels_modified {
                        v.voxels_modified = false;
                        if v.voxels == 0 {
                            let old_collider = v.collider;
                            v.collider = None;
                            out.push(ColliderUpdate::Remove { index, old: old_collider });
                        } else {
                            out.push(ColliderUpdate::Rebuild { index });
                        }
                    }
                },
                None => {},
            }
            proof {
                assert forall|j: int| 0 <= j < 65536 implies #[trigger] self.chunks.matrix@[j] == if j < k + 1 {
                    match m0[j] {
                        Some(v) => Some(
                            if v.voxels_modified {
                                planned(v)
                            } else {
                                v
                            },
                        ),
                        None => None,
                    }
                } else {
                    m0[j]
                } by {
                    if j != k {
                        assert(self.chunks.matrix@[j] == before[j]);
                    }
                }
                let n = out@.len() as int;
                if n > out0.len() {
                    assert(out@[n - 1] == update_for(index, m0[k as int].unwrap()));
                    assert forall|kk: int|
                        0 <= kk < k + 1 && #[trigger] m0[kk] is Some && m0[kk].unwrap().voxels_modified implies exists|j: int|
                        0 <= j < out@.len() && update_index(#[trigger] out@[j]).flat() == kk by {
                        if kk == k {
                            assert(update_index(out@[n - 1]).flat() == kk);
                        } else {
                            let j0 = choose|j: int| 0 <= j < out0.len() && update_index(#[trigger] out0[j]).flat() == kk;
                            assert(out@[j0] == out0[j0]);
                        }
                    }
                } else {
                    assert(out@ == out0);
                }
            }
            k = k + 1;
        }
        out
    }

    /// Records `ent` (an entity's bits) as the collider of the chunk at `index`, when its
    /// shape is present, and gives back the collider it replaces.
    pub fn set_collider(&mut self, index: MatrixIndex, ent: u64) -> (r: Option<u64>)
        requires
            old(self).wf(),
        ensures
            final(self).wf(),
            final(self).chunks.len == old(self).chunks.len,
            match old(self).chunks.matrix@[index.flat()] {
                Some(v) => r == v.collider && final(self).chunks.matrix@ == old(self).chunks.matrix@.update(
                    index.flat(),
                    Some(VoxelChunk { collider: Some(ent), ..v }),
                ),
                None => r is None && final(self).chunks.matrix@ == old(self).chunks.matrix@,
            },
    {
        match self.chunks.get_mut(index) {
            Some(v) => {
                let was = v.collider;
                v.collider = Some(ent);
                was
            },
            None => None,
        }
    }
}

} // verus!
