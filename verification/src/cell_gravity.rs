use crate::cell::{Cell, CellType};
use crate::chunk::VoxelChunk;
use crate::chunk_map::{
    cell_of, lemma_cell_valid, lemma_read_after_write, with_cell, lemma_marked_trans, lemma_touched_marked, lemma_wf_view, shapes_marked, ChunkMap,
    FullIndex, VoxelChunkMap,
};
use crate::matrix::{lemma_flatten_roundtrip, row_from, rows_from, MatrixIndex};
use crate::simulate_world::{exchanged, lemma_same_loaded, lemma_same_loaded_trans, same_loaded, swap_touch};
use vstd::prelude::*;

verus! {

/// The number of sections that the cells of a chunk are split into: each gravity pass handles
/// one section of every chunk.
pub const SECTIONS: usize = 16;

/// Where gravity moves the cell `c` at `idx` of the chunk at `chunk`: a liquid one row down
/// and a gas one row up. From the bottom row a liquid goes to the top row of the chunk after
/// it (`y + 1`), and from the top row a gas goes to the bottom row of the chunk before it
/// (`y - 1`).
pub open spec fn gravity_target(c: Cell, chunk: MatrixIndex, idx: MatrixIndex) -> Option<FullIndex> {
    if c.kind() == CellType::Liquid {
        if idx.y == 0 {
            if chunk.y < 255 {
                Some(
                    FullIndex {
                        cell_index: MatrixIndex { x: idx.x, y: 255 },
                        chunk_index: MatrixIndex { x: chunk.x, y: (chunk.y + 1) as u8 },
                    },
                )
            } else {
                None
            }
        } else {
            Some(
                FullIndex {
                    cell_index: MatrixIndex { x: idx.x, y: (idx.y - 1) as u8 },
                    chunk_index: chunk,
                },
            )
        }
    } else if c.kind() == CellType::Gas {
        if idx.y == 255 {
            if chunk.y > 0 {
                Some(
                    FullIndex {
                        cell_index: MatrixIndex { x: idx.x, y: 0 },
                        chunk_index: MatrixIndex { x: chunk.x, y: (chunk.y - 1) as u8 },
                    },
                )
            } else {
                None
            }
        } else {
            Some(
                FullIndex {
                    cell_index: MatrixIndex { x: idx.x, y: (idx.y + 1) as u8 },
                    chunk_index: chunk,
                },
            )
        }
    } else {
        None
    }
}

/// Where the cell at `i` goes under gravity in the world view `v`: to its target, when that
/// cell is loaded and is air.
pub open spec fn gravity_move(v: Seq<Option<(Seq<Cell>, bool)>>, i: FullIndex) -> Option<FullIndex> {
    match cell_of(v, i) {
        Some(c) => match gravity_target(c, i.chunk_index, i.cell_index) {
            Some(t) => match cell_of(v, t) {
                Some(a) => if a.kind() == CellType::Air {
                    Some(t)
                } else {
                    None
                },
                None => None,
            },
            None => None,
        },
        None => None,
    }
}

/// The world view after gravity acts on the cell at `i`: it changes places with the cell it
/// moves to, if any.
pub open spec fn after_gravity(v: Seq<Option<(Seq<Cell>, bool)>>, i: FullIndex) -> Seq<
    Option<(Seq<Cell>, bool)>,
> {
    match gravity_move(v, i) {
        Some(t) => exchanged(v, i, t),
        None => v,
    }
}

/// Gravity moves a liquid one row down and a gas one row up, into air: within a chunk to the
/// next row, and from the edge row across the border, from row 0 of a liquid to row 255 of
/// the chunk at `y + 1`, and from row 255 of a gas to row 0 of the chunk at `y - 1`, in the
/// same column. The cell moves there and the air takes its place.
pub proof fn lemma_gravity_moves_into_air(v: Seq<Option<(Seq<Cell>, bool)>>, i: FullIndex, t: FullIndex)
    requires
        v.len() == 65536,
        forall|k: int| 0 <= k < 65536 && #[trigger] v[k] is Some ==> v[k].unwrap().0.len() == 65536,
        cell_of(v, i) is Some,
        cell_of(v, t) is Some,
        cell_of(v, t).unwrap().kind() == CellType::Air,
        t.cell_index.x == i.cell_index.x,
        t.chunk_index.x == i.chunk_index.x,
        ({
            let c = cell_of(v, i).unwrap();
            let (iy, ty, ic, tc) = (i.cell_index.y as int, t.cell_index.y as int, i.chunk_index.y as int, t.chunk_index.y as int);
            ||| c.kind() == CellType::Gas && iy < 255 && tc == ic && ty == iy + 1
            ||| c.kind() == CellType::Gas && iy == 255 && tc == ic - 1 && ty == 0
            ||| c.kind() == CellType::Liquid && iy > 0 && tc == ic && ty == iy - 1
            ||| c.kind() == CellType::Liquid && iy == 0 && tc == ic + 1 && ty == 255
        }),
    ensures
        gravity_move(v, i) == Some(t),
        cell_of(after_gravity(v, i), t) == cell_of(v, i),
        cell_of(after_gravity(v, i), i) == cell_of(v, t),
{
    let c = cell_of(v, i).unwrap();
    let a = cell_of(v, t).unwrap();
    assert(gravity_target(c, i.chunk_index, i.cell_index) == Some(t));
    assert(t != i);
    let w1 = with_cell(v, i, a);
    lemma_read_after_write(v, i, a, t);
    lemma_flatten_roundtrip(i.chunk_index, 0);
    lemma_flatten_roundtrip(i.cell_index, 0);
    assert forall|k: int| 0 <= k < 65536 && #[trigger] w1[k] is Some implies w1[k].unwrap().0.len() == 65536 by {
        if k != i.chunk_index.flat() {
            assert(w1[k] == v[k]);
        }
    }
    lemma_read_after_write(w1, t, c, i);
}

/// Gravity moves only liquids and gases: a cell of any other kind stays where it is.
pub proof fn lemma_gravity_moves_only_fluids(v: Seq<Option<(Seq<Cell>, bool)>>, i: FullIndex)
    requires
        cell_of(v, i) is Some,
        cell_of(v, i).unwrap().kind() != CellType::Liquid,
        cell_of(v, i).unwrap().kind() != CellType::Gas,
    ensures
        gravity_move(v, i) is None,
        after_gravity(v, i) == v,
{
}

/// The world stays consistent with a collision map whose shapes and counts are unchanged.
pub proof fn lemma_consistent_same_shapes(w: ChunkMap, a: VoxelChunkMap, b: VoxelChunkMap)
    requires
        w.consistent(&a),
        b.chunks.wf(),
        forall|k: int| 0 <= k < 65536 ==> (#[trigger] b.chunks.matrix@[k] is Some <==> a.chunks.matrix@[k] is Some),
        forall|k: int|
            0 <= k < 65536 && #[trigger] a.chunks.matrix@[k] is Some ==> {
                let x = a.chunks.matrix@[k].unwrap();
                let y = b.chunks.matrix@[k].unwrap();
                &&& y.shape == x.shape
                &&& y.voxels == x.voxels
            },
    ensures
        w.consistent(&b),
{
    assert forall|k: int| 0 <= k < 65536 && #[trigger] w@[k] is Some implies b.chunks.matrix@[k].unwrap().matches(
        w@[k].unwrap().0,
    ) by {
        assert(a.chunks.matrix@[k] is Some);
        assert(a.chunks.matrix@[k].unwrap().matches(w@[k].unwrap().0));
    }
    assert forall|k: int| 0 <= k < 65536 implies (#[trigger] w@[k] is Some <==> b.chunks.matrix@[k] is Some) by {
        assert(w@[k] is Some <==> a.chunks.matrix@[k] is Some);
    }
}

/// The world view after gravity acts, in order, on the cells of the chunk at `chunk` from
/// the flat position `i` to `hi`.
pub open spec fn gravity_section(v: Seq<Option<(Seq<Cell>, bool)>>, chunk: MatrixIndex, i: int, hi: int) -> Seq<
    Option<(Seq<Cell>, bool)>,
>
    decreases hi + 1 - i,
{
    if i > hi {
        v
    } else {
        gravity_section(
            after_gravity(v, FullIndex { cell_index: MatrixIndex::unflat(i), chunk_index: chunk }),
            chunk,
            i + 1,
            hi,
        )
    }
}

/// The world view after gravity acts on the section `lo..=hi` of each chunk of `chunks`, in
/// order.
pub open spec fn gravity_chunks(v: Seq<Option<(Seq<Cell>, bool)>>, chunks: Seq<MatrixIndex>, lo: int, hi: int) -> Seq<
    Option<(Seq<Cell>, bool)>,
>
    decreases chunks.len(),
{
    if chunks.len() == 0 {
        v
    } else {
        gravity_chunks(gravity_section(v, chunks[0], lo, hi), chunks.drop_first(), lo, hi)
    }
}

/// Gravity changes nothing in a chunk that is not loaded.
pub proof fn lemma_section_unloaded(v: Seq<Option<(Seq<Cell>, bool)>>, chunk: MatrixIndex, i: int, hi: int)
    requires
        v[chunk.flat()] is None,
    ensures
        gravity_section(v, chunk, i, hi) == v,
    decreases hi + 1 - i,
{
    if i <= hi {
        lemma_section_unloaded(v, chunk, i + 1, hi);
    }
}

/// The shapes `m` with the one of the chunk at `index` (if any) marked as to be rebuilt.
pub open spec fn marked(m: Seq<Option<VoxelChunk>>, index: MatrixIndex) -> Seq<Option<VoxelChunk>> {
    match m[index.flat()] {
        Some(v) => m.update(index.flat(), Some(VoxelChunk { voxels_modified: true, ..v })),
        None => m,
    }
}

/// The chunk at `k` is loaded in both world views and its cells differ.
pub open spec fn cells_changed(a: Seq<Option<(Seq<Cell>, bool)>>, b: Seq<Option<(Seq<Cell>, bool)>>, k: int) -> bool {
    &&& a[k] is Some
    &&& b[k] is Some
    &&& a[k].unwrap().0 != b[k].unwrap().0
}

/// The collision shape at `k` of `m` is there and marked to be rebuilt.
pub open spec fn shape_marked_at(m: Seq<Option<VoxelChunk>>, k: int) -> bool {
    m[k] is Some && m[k].unwrap().voxels_modified
}

/// A mark to rebuild stays through shapes that change only by marking.
proof fn lemma_mark_stays(a: Seq<Option<VoxelChunk>>, b: Seq<Option<VoxelChunk>>, k: int)
    requires
        shapes_marked(a, b),
        0 <= k < 65536,
        shape_marked_at(a, k),
    ensures
        shape_marked_at(b, k),
{
    assert(b[k] == a[k] || b[k] is Some);
}

/// Marking the shape at `index` only marks, and marks that shape when it is there.
proof fn lemma_marked_marks(m: Seq<Option<VoxelChunk>>, index: MatrixIndex)
    requires
        m.len() == 65536,
    ensures
        shapes_marked(m, marked(m, index)),
        m[index.flat()] is Some ==> shape_marked_at(marked(m, index), index.flat()),
{
    lemma_flatten_roundtrip(index, 0);
    assert forall|k: int| 0 <= k < 65536 implies #[trigger] marked(m, index)[k] == m[k] || {
        &&& m[k] is Some
        &&& marked(m, index)[k] is Some
        &&& marked(m, index)[k].unwrap().voxels_modified
        &&& marked(m, index)[k].unwrap().collider == m[k].unwrap().collider
    } by {
        if k != index.flat() {
            if m[index.flat()] is Some {
                assert(marked(m, index)[k] == m[k]);
            }
        }
    }
}

/// Gravity acting on the cell at `i` changes only the chunk of `i` and the chunk it moves
/// to, which is in the same column, in the same row of chunks or the one before or after.
proof fn lemma_gravity_chunks_touched(v: Seq<Option<(Seq<Cell>, bool)>>, i: FullIndex, k: int)
    requires
        v.len() == 65536,
        gravity_move(v, i) is Some,
    ensures
        gravity_move(v, i).unwrap().chunk_index.x == i.chunk_index.x,
        gravity_move(v, i).unwrap().chunk_index.y < i.chunk_index.y ==> gravity_move(v, i).unwrap().chunk_index.y
            == i.chunk_index.y - 1,
        gravity_move(v, i).unwrap().chunk_index.y > i.chunk_index.y ==> gravity_move(v, i).unwrap().chunk_index.y
            == i.chunk_index.y + 1,
        gravity_move(v, i).unwrap().chunk_index.y == i.chunk_index.y ==> gravity_move(v, i).unwrap().chunk_index
            == i.chunk_index,
        0 <= k < 65536 && k != i.chunk_index.flat() && k != gravity_move(v, i).unwrap().chunk_index.flat()
            ==> after_gravity(v, i)[k] == v[k],
{
    lemma_flatten_roundtrip(i.chunk_index, 0);
    lemma_flatten_roundtrip(gravity_move(v, i).unwrap().chunk_index, 0);
}

impl VoxelChunkMap {
    /// Marks the collision shape of the chunk at `index` (if any) as to be rebuilt.
    fn mark_modified(&mut self, index: MatrixIndex)
        requires
            old(self).chunks.wf(),
        ensures
            final(self).chunks.wf(),
            final(self).chunks.matrix@ == marked(old(self).chunks.matrix@, index),
            final(self).chunks.len == old(self).chunks.len,
            final(self).chunks.min_elem == old(self).chunks.min_elem,
            final(self).chunks.max_elem == old(self).chunks.max_elem,
            forall|k: int|
                0 <= k < 65536 ==> (#[trigger] final(self).chunks.matrix@[k] is Some
                    <==> old(self).chunks.matrix@[k] is Some),
            forall|k: int|
                0 <= k < 65536 && #[trigger] old(self).chunks.matrix@[k] is Some ==> {
                    let a = old(self).chunks.matrix@[k].unwrap();
                    let b = final(self).chunks.matrix@[k].unwrap();
                    &&& b.shape == a.shape
                    &&& b.voxels == a.voxels
                    &&& b.collider == a.collider
                },
    {
        let ghost before = self.chunks.matrix@;
        proof {
            lemma_flatten_roundtrip(index, 0);
        }
        if let Some(v) = self.chunks.get_mut(index) {
            v.voxels_modified = true;
        }
        proof {
            assert forall|k: int| 0 <= k < 65536 implies (#[trigger] self.chunks.matrix@[k] is Some
                <==> before[k] is Some) by {
                if k != index.flat() {
                    assert(self.chunks.matrix@[k] == before[k]);
                }
            }
        }
    }
}

impl ChunkMap {
    /// Lets gravity act on the cell at `(chunk_index, idx)`: a liquid falls, and a gas
    /// rises, one row into air. Returns where the cell went, if it moved.
    pub fn gravity_cell(
        &mut self,
        voxel_world: &mut VoxelChunkMap,
        chunk_index: MatrixIndex,
        idx: MatrixIndex,
    ) -> (r: Option<FullIndex>)
        requires
            old(self).consistent(old(voxel_world)),
        ensures
            final(self).consistent(final(voxel_world)),
            r == gravity_move(old(self)@, FullIndex { cell_index: idx, chunk_index }),
            final(self)@ == after_gravity(old(self)@, FullIndex { cell_index: idx, chunk_index }),
            shapes_marked(old(voxel_world).chunks.matrix@, final(voxel_world).chunks.matrix@),
    {
        let here = FullIndex { cell_index: idx, chunk_index };
        let c = match self.get(here) {
            Some(c) => *c,
            None => {
                return None;
            },
        };
        proof {
            lemma_cell_valid(*self, here);
        }
        let kind = c.cell_type();
        let target = if kind == CellType::Liquid {
            if idx.y == 0 {
                if chunk_index.y < 255 {
                    Some(
                        FullIndex {
                            cell_index: MatrixIndex { x: idx.x, y: 255 },
                            chunk_index: MatrixIndex { x: chunk_index.x, y: chunk_index.y + 1 },
                        },
                    )
                } else {
                    None
                }
            } else {
                Some(FullIndex { cell_index: MatrixIndex { x: idx.x, y: idx.y - 1 }, chunk_index })
            }
        } else if kind == CellType::Gas {
            if idx.y == 255 {
                if chunk_index.y > 0 {
                    Some(
                        FullIndex {
                            cell_index: MatrixIndex { x: idx.x, y: 0 },
                            chunk_index: MatrixIndex { x: chunk_index.x, y: chunk_index.y - 1 },
                        },
                    )
                } else {
                    None
                }
            } else {
                Some(FullIndex { cell_index: MatrixIndex { x: idx.x, y: idx.y + 1 }, chunk_index })
            }
        } else {
            None
        };
        match target {
            Some(t) => {
                let is_air = match self.get(t) {
                    Some(a) => {
                        proof {
                            lemma_cell_valid(*self, t);
                        }
                        a.cell_type() == CellType::Air
                    },
                    None => false,
                };
                if is_air {
                    let ghost vm = voxel_world.chunks.matrix@;
                    let ghost v = self@;
                    self.swap(voxel_world, here, t);
                    proof {
                        lemma_touched_marked(vm, voxel_world.chunks.matrix@, swap_touch(v, here, t));
                    }
                    Some(t)
                } else {
                    None
                }
            },
            None => None,
        }
    }

    /// Marks the collision shape of the chunk at `index` (if any) as to be rebuilt.
    fn mark_shape(&self, voxel_world: &mut VoxelChunkMap, index: MatrixIndex)
        requires
            self.consistent(old(voxel_world)),
        ensures
            self.consistent(final(voxel_world)),
            final(voxel_world).chunks.matrix@ == marked(old(voxel_world).chunks.matrix@, index),
            final(voxel_world).chunks.len == old(voxel_world).chunks.len,
            final(voxel_world).chunks.min_elem == old(voxel_world).chunks.min_elem,
            final(voxel_world).chunks.max_elem == old(voxel_world).chunks.max_elem,
    {
        let ghost a = *voxel_world;
        voxel_world.mark_modified(index);
        proof {
            lemma_consistent_same_shapes(*self, a, *voxel_world);
        }
    }

    /// One gravity pass: over the section `num` of the cells of every loaded chunk (a
    /// sixteenth of the chunk, in row order, both ends included), liquids fall and gases
    /// rise by a row into air, chunk by chunk in row order over the stored bounds. A chunk into
    /// which or within which a cell moved has its collision shape marked for rebuilding. The
    /// section counter then moves on, starting over after the last section.
    pub fn cell_gravity(&mut self, voxel_world: &mut VoxelChunkMap, num: &mut usize)
        requires
            old(self).consistent(old(voxel_world)),
            *old(num) <= SECTIONS,
        ensures
            final(self).consistent(final(voxel_world)),
            same_loaded(old(self)@, final(self)@),
            shapes_marked(old(voxel_world).chunks.matrix@, final(voxel_world).chunks.matrix@),
            forall|k: int|
                0 <= k < 65536 && #[trigger] cells_changed(old(self)@, final(self)@, k) ==> shape_marked_at(
                    final(voxel_world).chunks.matrix@,
                    k,
                ),
            ({
                let section: int = if *old(num) == SECTIONS {
                    0
                } else {
                    *old(num) as int
                };
                &&& *final(num) == section + 1
                &&& final(self)@ == gravity_chunks(
                    old(self)@,
                    rows_from(old(self).chunks.min_elem, old(self).chunks.max_elem, old(self).chunks.min_elem.y as int),
                    section * 65535 / 16,
                    (section + 1) * 65535 / 16,
                )
            }),
    {
        if *num == SECTIONS {
            *num = 0;
        }
        let ghost w0 = self@;
        let ghost vm0 = voxel_world.chunks.matrix@;
        let ghost min_e = self.chunks.min_elem;
        let ghost max_e = self.chunks.max_elem;
        proof {
            lemma_wf_view(*self);
        }
        let section = *num;
        assert(section * 65535 / 16 <= (section + 1) * 65535 / 16 <= 65535) by (nonlinear_arith)
            requires
                section < 16,
        ;
        let lo: u16 = (section * 65535 / SECTIONS) as u16;
        let hi: u16 = ((section + 1) * 65535 / SECTIONS) as u16;
        let ghost all = rows_from(min_e, max_e, min_e.y as int);
        let min_x: u16 = self.chunks.min_elem.x as u16;
        let max_x: u16 = self.chunks.max_elem.x as u16;
        let min_y: u16 = self.chunks.min_elem.y as u16;
        let max_y: u16 = self.chunks.max_elem.y as u16;
        let mut y: u16 = min_y;
        while y <= max_y
            invariant
                self.consistent(voxel_world),
                same_loaded(w0, self@),
                shapes_marked(vm0, voxel_world.chunks.matrix@),
                forall|k: int|
                    0 <= k < 65536 && #[trigger] cells_changed(w0, self@, k) ==> shape_marked_at(
                        voxel_world.chunks.matrix@,
                        k,
                    ),
                w0.len() == 65536,
                max_x < 256,
                max_y < 256,
                min_x == min_e.x && max_x == max_e.x && max_y == max_e.y,
                lo <= hi,
                gravity_chunks(w0, all, lo as int, hi as int) == gravity_chunks(
                    self@,
                    rows_from(min_e, max_e, y as int),
                    lo as int,
                    hi as int,
                ),
            decreases 256 - y,
        {
            proof {
                assert(rows_from(min_e, max_e, y as int) == row_from(min_x as int, y as int, max_x as int)
                    + rows_from(min_e, max_e, y + 1));
            }
            let mut x: u16 = min_x;
            while x <= max_x
                invariant
                    self.consistent(voxel_world),
                    same_loaded(w0, self@),
                    shapes_marked(vm0, voxel_world.chunks.matrix@),
                    forall|k: int|
                        0 <= k < 65536 && #[trigger] cells_changed(w0, self@, k) ==> shape_marked_at(
                            voxel_world.chunks.matrix@,
                            k,
                        ),
                    w0.len() == 65536,
                    max_x < 256,
                    y < 256,
                    y <= max_y,
                    min_x == min_e.x && max_x == max_e.x && max_y == max_e.y,
                    lo <= hi,
                    gravity_chunks(w0, all, lo as int, hi as int) == gravity_chunks(
                        self@,
                        row_from(x as int, y as int, max_x as int) + rows_from(min_e, max_e, y + 1),
                        lo as int,
                        hi as int,
                    ),
                decreases 256 - x,
            {
                let chunk_index = MatrixIndex { x: x as u8, y: y as u8 };
                let ghost rest = row_from(x + 1, y as int, max_x as int) + rows_from(min_e, max_e, y + 1);
                let ghost here = row_from(x as int, y as int, max_x as int) + rows_from(min_e, max_e, y + 1);
                let ghost vc = self@;
                proof {
                    assert(here =~= seq![chunk_index] + rest);
                    assert(here[0] == chunk_index);
                    assert(here.drop_first() =~= rest);
                    lemma_flatten_roundtrip(chunk_index, 0);
                }
                if self.index(chunk_index).is_some() {
                    let mut changed = false;
                    let mut before_changed = false;
                    let mut after_changed = false;
                    let mut i: u32 = lo as u32;
                    while i <= hi as u32
                        invariant
                            self.consistent(voxel_world),
                            same_loaded(w0, self@),
                            shapes_marked(vm0, voxel_world.chunks.matrix@),
                            forall|k: int|
                                0 <= k < 65536 && #[trigger] cells_changed(w0, self@, k) ==> shape_marked_at(
                                    voxel_world.chunks.matrix@,
                                    k,
                                ) || (changed && k == chunk_index.flat()) || (before_changed && k == (MatrixIndex {
                                    x: x as u8,
                                    y: (y - 1) as u8,
                                }).flat()) || (after_changed && k == (MatrixIndex { x: x as u8, y: (y + 1) as u8 }).flat()),
                            before_changed ==> self@[(MatrixIndex { x: x as u8, y: (y - 1) as u8 }).flat()] is Some,
                            after_changed ==> self@[(MatrixIndex { x: x as u8, y: (y + 1) as u8 }).flat()] is Some,
                            changed ==> self@[chunk_index.flat()] is Some,
                            before_changed ==> changed,
                            after_changed ==> changed,
                            w0.len() == 65536,
                            hi <= 65535,
                            lo <= i <= hi as u32 + 1,
                            chunk_index == (MatrixIndex { x: x as u8, y: y as u8 }),
                            y < 256,
                            before_changed ==> y > 0,
                            after_changed ==> y < 255,
                            gravity_section(vc, chunk_index, lo as int, hi as int) == gravity_section(
                                self@,
                                chunk_index,
                                i as int,
                                hi as int,
                            ),
                        decreases hi as u32 + 1 - i,
                    {
                        let ghost v = self@;
                        let ghost vm = voxel_world.chunks.matrix@;
                        let idx = MatrixIndex::from(i as u16);
                        let moved = self.gravity_cell(voxel_world, chunk_index, idx);
                        proof {
                            lemma_marked_trans(vm0, vm, voxel_world.chunks.matrix@);
                            let here = FullIndex { cell_index: idx, chunk_index };
                            match gravity_move(v, here) {
                                Some(t) => {
                                    lemma_same_loaded(v, here, t, Cell::fresh(0));
                                    lemma_same_loaded_trans(w0, v, self@);
                                },
                                None => {},
                            }
                        }
                        match moved {
                            Some(t) => {
                                changed = true;
                                if t.chunk_index.y < chunk_index.y {
                                    before_changed = true;
                                } else if t.chunk_index.y > chunk_index.y {
                                    after_changed = true;
                                }
                            },
                            None => {},
                        }
                        proof {
                            let here = FullIndex { cell_index: idx, chunk_index };
                            let below = (MatrixIndex { x: x as u8, y: (y - 1) as u8 }).flat();
                            let above = (MatrixIndex { x: x as u8, y: (y + 1) as u8 }).flat();
                            let nvm = voxel_world.chunks.matrix@;
                            assert forall|k: int|
                                0 <= k < 65536 && #[trigger] cells_changed(w0, self@, k) implies shape_marked_at(nvm, k)
                                || (changed && k == chunk_index.flat()) || (before_changed && k == below) || (
                            after_changed && k == above) by {
                                match moved {
                                    Some(t) => {
                                        lemma_gravity_chunks_touched(v, here, k);
                                        if k != chunk_index.flat() && k != t.chunk_index.flat() {
                                            assert(cells_changed(w0, v, k));
                                            if shape_marked_at(vm, k) {
                                                lemma_mark_stays(vm, nvm, k);
                                            }
                                        }
                                    },
                                    None => {
                                        assert(cells_changed(w0, v, k));
                                        if shape_marked_at(vm, k) {
                                            lemma_mark_stays(vm, nvm, k);
                                        }
                                    },
                                }
                            }
                            match moved {
                                Some(t) => {
                                    lemma_gravity_chunks_touched(v, here, 0);
                                    lemma_flatten_roundtrip(t.chunk_index, 0);
                                    assert(v[t.chunk_index.flat()] is Some);
                                },
                                None => {},
                            }
                        }
                        i = i + 1;
                    }
                    let ghost va = self@;
                    let ghost vma = voxel_world.chunks.matrix@;
                    if changed {
                        let ghost below = MatrixIndex { x: x as u8, y: (y - 1) as u8 };
                        let ghost above = MatrixIndex { x: x as u8, y: (y + 1) as u8 };
                        if before_changed {
                            let ghost m = voxel_world.chunks.matrix@;
                            self.mark_shape(voxel_world, MatrixIndex { x: x as u8, y: (y - 1) as u8 });
                            proof {
                                lemma_marked_marks(m, below);
                                lemma_marked_trans(vm0, m, voxel_world.chunks.matrix@);
                            }
                        }
                        let ghost vmb = voxel_world.chunks.matrix@;
                        if after_changed {
                            let ghost m = voxel_world.chunks.matrix@;
                            self.mark_shape(voxel_world, MatrixIndex { x: x as u8, y: (y + 1) as u8 });
                            proof {
                                lemma_marked_marks(m, above);
                                lemma_marked_trans(vm0, m, voxel_world.chunks.matrix@);
                            }
                        }
                        let ghost vmc = voxel_world.chunks.matrix@;
                        self.mark_shape(voxel_world, chunk_index);
                        proof {
                            lemma_marked_marks(vmc, chunk_index);
                            lemma_marked_trans(vm0, vmc, voxel_world.chunks.matrix@);
                            let vmd = voxel_world.chunks.matrix@;
                            lemma_flatten_roundtrip(below, 0);
                            lemma_flatten_roundtrip(above, 0);
                            assert forall|k: int|
                                0 <= k < 65536 && #[trigger] cells_changed(w0, self@, k) implies shape_marked_at(vmd, k) by {
                                if shape_marked_at(vma, k) {
                                    if before_changed {
                                        lemma_marked_marks(vma, below);
                                        lemma_mark_stays(vma, vmb, k);
                                    } else {
                                        assert(vmb == vma);
                                    }
                                    if after_changed {
                                        lemma_marked_marks(vmb, above);
                                        lemma_mark_stays(vmb, vmc, k);
                                    } else {
                                        assert(vmc == vmb);
                                    }
                                    lemma_mark_stays(vmc, vmd, k);
                                } else if k == chunk_index.flat() {
                                } else if before_changed && k == below.flat() {
                                    lemma_marked_marks(vma, below);
                                    if after_changed {
                                        lemma_marked_marks(vmb, above);
                                        lemma_mark_stays(vmb, vmc, k);
                                    }
                                    lemma_mark_stays(vmc, vmd, k);
                                } else {
                                    lemma_marked_marks(vmb, above);
                                    lemma_mark_stays(vmc, vmd, k);
                                }
                            }
                        }
                    }
                } else {
                    proof {
                        lemma_section_unloaded(vc, chunk_index, lo as int, hi as int);
                    }
                }
                x = x + 1;
            }
            proof {
                assert(row_from(x as int, y as int, max_x as int) + rows_from(min_e, max_e, y + 1) =~= rows_from(
                    min_e,
                    max_e,
                    y + 1,
                ));
            }
            y = y + 1;
        }
        proof {
            assert(rows_from(min_e, max_e, y as int) =~= Seq::<MatrixIndex>::empty());
        }
        *num = *num + 1;
    }
}

} // verus!
