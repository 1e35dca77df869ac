use crate::cell::{Cell, CellId, CELL_COUNT};
use crate::matrix::flat_of;
use crate::chunk::{collider_set, lemma_collider_count_bound, lemma_collider_count_update, Chunk, VoxelChunk};
use crate::matrix::{filled, lemma_flatten_order, lemma_flatten_roundtrip, lemma_same_pattern, MatrixBounded, MatrixIndex};
use vstd::prelude::*;
use vstd::std_specs::ops::{AddSpec, SubSpec};

verus! {

/// The position of a cell in the world: which chunk, and which cell inside that chunk.
#[derive(Clone, Copy, Debug, PartialEq, Eq, Structural)]
pub struct FullIndex {
    pub cell_index: MatrixIndex,
    pub chunk_index: MatrixIndex,
}

/// The same position under the name that the chunk map's readers use.
pub type CellIndex = FullIndex;

pub open spec fn carry(v: int) -> int {
    if v > 255 {
        1
    } else {
        0
    }
}

pub open spec fn borrow(v: int) -> int {
    if v < 0 {
        1
    } else {
        0
    }
}

impl FullIndex {
    /// World x coordinate: 256 cells per chunk.
    pub open spec fn world_x(self) -> int {
        self.chunk_index.x * 256 + self.cell_index.x
    }

    pub open spec fn world_y(self) -> int {
        self.chunk_index.y * 256 + self.cell_index.y
    }

    /// The index of the cell at world coordinates `(x, y)`.
    pub open spec fn of_world(x: int, y: int) -> FullIndex {
        FullIndex {
            cell_index: MatrixIndex { x: (x % 256) as u8, y: (y % 256) as u8 },
            chunk_index: MatrixIndex { x: (x / 256) as u8, y: (y / 256) as u8 },
        }
    }

    /// World coordinates of this cell.
    #[must_use]
    pub fn to_u16(self) -> (r: (u16, u16))
        ensures
            r.0 == self.world_x(),
            r.1 == self.world_y(),
    {
        (
            (self.chunk_index.x as u16) * 256 + (self.cell_index.x as u16),
            (self.chunk_index.y as u16) * 256 + (self.cell_index.y as u16),
        )
    }
}

impl core::ops::Add<(u8, u8)> for FullIndex {
    type Output = Self;

    fn add(self, rhs: (u8, u8)) -> (r: Self) {
        let (x, y) = rhs;
        let cx = self.cell_index.x.wrapping_add(x);
        let x_overflowed = cx < x;
        let cy = self.cell_index.y.wrapping_add(y);
        let y_overflowed = cy < y;
        Self {
            cell_index: MatrixIndex { x: cx, y: cy },
            chunk_index: MatrixIndex {
                x: self.chunk_index.x + if x_overflowed {
                    1u8
                } else {
                    0u8
                },
                y: self.chunk_index.y + if y_overflowed {
                    1u8
                } else {
                    0u8
                },
            },
        }
    }
}

impl vstd::std_specs::ops::AddSpecImpl<(u8, u8)> for FullIndex {
    open spec fn obeys_add_spec() -> bool {
        true
    }

    open spec fn add_req(self, rhs: (u8, u8)) -> bool {
        &&& self.chunk_index.x + carry(self.cell_index.x + rhs.0) <= 255
        &&& self.chunk_index.y + carry(self.cell_index.y + rhs.1) <= 255
    }

    open spec fn add_spec(self, rhs: (u8, u8)) -> Self {
        FullIndex {
            cell_index: MatrixIndex {
                x: ((self.cell_index.x + rhs.0) % 256) as u8,
                y: ((self.cell_index.y + rhs.1) % 256) as u8,
            },
            chunk_index: MatrixIndex {
                x: (self.chunk_index.x + carry(self.cell_index.x + rhs.0)) as u8,
                y: (self.chunk_index.y + carry(self.cell_index.y + rhs.1)) as u8,
            },
        }
    }
}

impl core::ops::Sub<(u8, u8)> for FullIndex {
    type Output = Self;

    fn sub(self, rhs: (u8, u8)) -> (r: Self) {
        let (x, y) = rhs;
        let cx = self.cell_index.x.wrapping_sub(x);
        let x_overflowed = self.cell_index.x < x;
        let cy = self.cell_index.y.wrapping_sub(y);
        let y_overflowed = self.cell_index.y < y;
        Self {
            cell_index: MatrixIndex { x: cx, y: cy },
            chunk_index: MatrixIndex {
                x: self.chunk_index.x - if x_overflowed {
                    1u8
                } else {
                    0u8
                },
                y: self.chunk_index.y - if y_overflowed {
                    1u8
                } else {
                    0u8
                },
            },
        }
    }
}

impl vstd::std_specs::ops::SubSpecImpl<(u8, u8)> for FullIndex {
    open spec fn obeys_sub_spec() -> bool {
        true
    }

    open spec fn sub_req(self, rhs: (u8, u8)) -> bool {
        &&& self.chunk_index.x >= borrow(self.cell_index.x - rhs.0)
        &&& self.chunk_index.y >= borrow(self.cell_index.y - rhs.1)
    }

    open spec fn sub_spec(self, rhs: (u8, u8)) -> Self {
        FullIndex {
            cell_index: MatrixIndex {
                x: ((self.cell_index.x - rhs.0) + 256 * borrow(self.cell_index.x - rhs.0)) as u8,
                y: ((self.cell_index.y - rhs.1) + 256 * borrow(self.cell_index.y - rhs.1)) as u8,
            },
            chunk_index: MatrixIndex {
                x: (self.chunk_index.x - borrow(self.cell_index.x - rhs.0)) as u8,
                y: (self.chunk_index.y - borrow(self.cell_index.y - rhs.1)) as u8,
            },
        }
    }
}

impl From<u32> for FullIndex {
    fn from(value: u32) -> (r: Self) {
        let width: u32 = 65536;
        Self {
            cell_index: MatrixIndex::from((value % width) as u16),
            chunk_index: MatrixIndex::from((value / width) as u16),
        }
    }
}

impl vstd::std_specs::convert::FromSpecImpl<u32> for FullIndex {
    open spec fn obeys_from_spec() -> bool {
        true
    }

    open spec fn from_spec(v: u32) -> Self {
        FullIndex {
            cell_index: MatrixIndex::unflat(v as int % 65536),
            chunk_index: MatrixIndex::unflat(v as int / 65536),
        }
    }
}

impl From<(u16, u16)> for FullIndex {
    fn from(value: (u16, u16)) -> (r: Self) {
        let (x, y) = value;
        let index_a = MatrixIndex::from(x);
        let index_b = MatrixIndex::from(y);
        let chunk_index = MatrixIndex { x: index_a.y, y: index_b.y };
        let cell_index = MatrixIndex { x: index_a.x, y: index_b.x };
        Self { cell_index, chunk_index }
    }
}

impl vstd::std_specs::convert::FromSpecImpl<(u16, u16)> for FullIndex {
    open spec fn obeys_from_spec() -> bool {
        true
    }

    open spec fn from_spec(v: (u16, u16)) -> Self {
        FullIndex::of_world(v.0 as int, v.1 as int)
    }
}

/// World coordinates and cell indices are in one-to-one correspondence: converting a cell's
/// coordinates back gives the same cell, and converting coordinates to a cell and back gives
/// the same coordinates.
pub proof fn lemma_world_coordinates_roundtrip(i: FullIndex, x: u16, y: u16)
    ensures
        FullIndex::of_world(i.world_x(), i.world_y()) == i,
        0 <= i.world_x() < 65536 && 0 <= i.world_y() < 65536,
        FullIndex::of_world(x as int, y as int).world_x() == x,
        FullIndex::of_world(x as int, y as int).world_y() == y,
{
}

/// Adding an offset to a cell index moves the cell by that offset in world coordinates,
/// carrying into the next chunk; subtracting moves it back, borrowing from the chunk before.
pub proof fn lemma_offset_moves_world_position(i: FullIndex, d: (u8, u8))
    ensures
        i.add_req(d) ==> i.add_spec(d).world_x() == i.world_x() + d.0 && i.add_spec(d).world_y()
            == i.world_y() + d.1,
        i.sub_req(d) ==> i.sub_spec(d).world_x() == i.world_x() - d.0 && i.sub_spec(d).world_y()
            == i.world_y() - d.1,
        i.add_req(d) ==> i.add_spec(d).sub_req(d) && i.add_spec(d).sub_spec(d) == i,
{
}


/// Whether the visible picture of the world changed since it was last drawn.
pub struct ChunkMapModified {
    pub visual_modified: bool,
}

impl Default for ChunkMapModified {
    fn default() -> (m: Self)
        ensures
            m.visual_modified,
    {
        Self { visual_modified: true }
    }
}

/// The loaded chunks of the world.
pub struct ChunkMap {
    pub chunks: MatrixBounded<Chunk>,
}

/// The collision shapes of the loaded chunks.
pub struct VoxelChunkMap {
    pub chunks: MatrixBounded<VoxelChunk>,
}

/// The world under the name that the simulation uses.
pub type World = ChunkMap;

/// The collision shapes under the name that the simulation uses.
pub type VoxelWorld = VoxelChunkMap;

/// What the simulation sees of a chunk: its cells and whether it is to be skipped.
pub open spec fn chunk_view(o: Option<Chunk>) -> Option<(Seq<Cell>, bool)> {
    match o {
        Some(c) => Some((c.cells@, c.skip_simulation)),
        None => None,
    }
}

impl View for ChunkMap {
    type V = Seq<Option<(Seq<Cell>, bool)>>;

    open spec fn view(&self) -> Seq<Option<(Seq<Cell>, bool)>> {
        self.chunks.matrix@.map_values(|o: Option<Chunk>| chunk_view(o))
    }
}

/// A world view with the cell at `i` replaced by `c` (when its chunk is loaded).
pub open spec fn with_cell(
    v: Seq<Option<(Seq<Cell>, bool)>>,
    i: FullIndex,
    c: Cell,
) -> Seq<Option<(Seq<Cell>, bool)>> {
    let k = i.chunk_index.flat();
    match v[k] {
        Some((cells, skip)) => v.update(k, Some((cells.update(i.cell_index.flat(), c), skip))),
        None => v,
    }
}

/// The cell at `i` in a world view, if its chunk is loaded.
pub open spec fn cell_of(v: Seq<Option<(Seq<Cell>, bool)>>, i: FullIndex) -> Option<Cell> {
    match v[i.chunk_index.flat()] {
        Some((cells, _)) => Some(cells[i.cell_index.flat()]),
        None => None,
    }
}

/// The collision shapes `b` follow from `a` by touching exactly the chunks of `touched`: each
/// of those is loaded in both, keeps its collider and is marked to be rebuilt; every other
/// chunk's shape is as it was.
pub open spec fn shapes_touched(a: Seq<Option<VoxelChunk>>, b: Seq<Option<VoxelChunk>>, touched: Set<int>) -> bool {
    forall|k: int|
        0 <= k < 65536 ==> if touched.contains(k) {
            &&& a[k] is Some
            &&& #[trigger] b[k] is Some
            &&& b[k].unwrap().voxels_modified
            &&& b[k].unwrap().collider == a[k].unwrap().collider
        } else {
            b[k] == a[k]
        }
}

/// Every collision shape of `b` is the one of `a`, or else the same chunk's shape, with the
/// same collider, marked to be rebuilt.
pub open spec fn shapes_marked(a: Seq<Option<VoxelChunk>>, b: Seq<Option<VoxelChunk>>) -> bool {
    forall|k: int|
        0 <= k < 65536 ==> #[trigger] b[k] == a[k] || {
            &&& a[k] is Some
            &&& b[k] is Some
            &&& b[k].unwrap().voxels_modified
            &&& b[k].unwrap().collider == a[k].unwrap().collider
        }
}

/// Touching no shape leaves the shapes as they are.
pub proof fn lemma_touched_none(a: Seq<Option<VoxelChunk>>)
    ensures
        shapes_touched(a, a, Set::empty()),
{
}

/// Touching two sets of shapes one after the other touches their union.
pub proof fn lemma_touched_trans(
    a: Seq<Option<VoxelChunk>>,
    b: Seq<Option<VoxelChunk>>,
    c: Seq<Option<VoxelChunk>>,
    s: Set<int>,
    t: Set<int>,
)
    requires
        shapes_touched(a, b, s),
        shapes_touched(b, c, t),
    ensures
        shapes_touched(a, c, s + t),
{
    assert forall|k: int| 0 <= k < 65536 implies if (s + t).contains(k) {
        &&& a[k] is Some
        &&& #[trigger] c[k] is Some
        &&& c[k].unwrap().voxels_modified
        &&& c[k].unwrap().collider == a[k].unwrap().collider
    } else {
        c[k] == a[k]
    } by {
        assert(s.contains(k) ==> b[k] is Some);
        assert(t.contains(k) ==> c[k] is Some);
        assert(c[k] == b[k] || t.contains(k));
        assert(b[k] == a[k] || s.contains(k));
    }
}

/// Touching some shapes marks them.
pub proof fn lemma_touched_marked(a: Seq<Option<VoxelChunk>>, b: Seq<Option<VoxelChunk>>, t: Set<int>)
    requires
        shapes_touched(a, b, t),
    ensures
        shapes_marked(a, b),
{
    assert forall|k: int| 0 <= k < 65536 implies #[trigger] b[k] == a[k] || {
        &&& a[k] is Some
        &&& b[k] is Some
        &&& b[k].unwrap().voxels_modified
        &&& b[k].unwrap().collider == a[k].unwrap().collider
    } by {
        if t.contains(k) {
            assert(b[k] is Some);
        }
    }
}

/// Marking shapes one step after another marks them.
pub proof fn lemma_marked_trans(a: Seq<Option<VoxelChunk>>, b: Seq<Option<VoxelChunk>>, c: Seq<Option<VoxelChunk>>)
    requires
        shapes_marked(a, b),
        shapes_marked(b, c),
    ensures
        shapes_marked(a, c),
{
    assert forall|k: int| 0 <= k < 65536 implies #[trigger] c[k] == a[k] || {
        &&& a[k] is Some
        &&& c[k] is Some
        &&& c[k].unwrap().voxels_modified
        &&& c[k].unwrap().collider == a[k].unwrap().collider
    } by {
        assert(b[k] == a[k] || b[k] is Some);
        assert(c[k] == b[k] || c[k] is Some);
    }
}

/// The colliders follow the solid cells: when a world and its shapes stay consistent and the
/// shapes change only by marking, every loaded chunk whose solid cells changed has its shape
/// marked to be rebuilt.
pub proof fn lemma_solid_changes_marked(w1: ChunkMap, v1: VoxelChunkMap, w2: ChunkMap, v2: VoxelChunkMap, k: int)
    requires
        w1.consistent(&v1),
        w2.consistent(&v2),
        shapes_marked(v1.chunks.matrix@, v2.chunks.matrix@),
        0 <= k < 65536,
        w1@[k] is Some,
        w2@[k] is Some,
        collider_set(w1@[k].unwrap().0) != collider_set(w2@[k].unwrap().0),
    ensures
        v2.chunks.matrix@[k].unwrap().voxels_modified,
{
    assert(v1.chunks.matrix@[k].unwrap().matches(w1@[k].unwrap().0));
    assert(v2.chunks.matrix@[k].unwrap().matches(w2@[k].unwrap().0));
    if v2.chunks.matrix@[k] == v1.chunks.matrix@[k] {
        assert(false);
    }
}

/// A read gives back what a write wrote: after the cell at `i` of a loaded chunk is replaced
/// by `c`, the cell at `i` is `c`, and every other cell is what it was.
pub proof fn lemma_read_after_write(v: Seq<Option<(Seq<Cell>, bool)>>, i: FullIndex, c: Cell, j: FullIndex)
    requires
        v.len() == 65536,
        cell_of(v, i) is Some,
        forall|k: int| 0 <= k < 65536 && #[trigger] v[k] is Some ==> v[k].unwrap().0.len() == 65536,
    ensures
        cell_of(with_cell(v, i, c), i) == Some(c),
        j != i ==> cell_of(with_cell(v, i, c), j) == cell_of(v, j),
{
    lemma_flatten_roundtrip(i.chunk_index, 0);
    lemma_flatten_roundtrip(j.chunk_index, 0);
    lemma_flatten_roundtrip(i.cell_index, 0);
    lemma_flatten_roundtrip(j.cell_index, 0);
    lemma_flatten_order(i.chunk_index, j.chunk_index);
    lemma_flatten_order(i.cell_index, j.cell_index);
}

impl ChunkMap {
    pub open spec fn wf(&self) -> bool {
        &&& self.chunks.wf()
        &&& forall|k: int| #[trigger] filled(self.chunks.matrix@, k) ==> self.chunks.matrix@[k].unwrap().wf()
    }

    /// The world and the collision shapes agree: the same chunks are loaded, and each shape
    /// matches its chunk's cells.
    pub open spec fn consistent(&self, voxels: &VoxelChunkMap) -> bool {
        &&& self.wf()
        &&& voxels.chunks.wf()
        &&& forall|k: int|
            0 <= k < 65536 ==> (#[trigger] self@[k] is Some <==> voxels.chunks.matrix@[k] is Some)
        &&& forall|k: int|
            0 <= k < 65536 && #[trigger] self@[k] is Some ==> voxels.chunks.matrix@[k].unwrap().matches(
                self@[k].unwrap().0,
            )
    }

    /// The cell at `i`, if its chunk is loaded.
    pub open spec fn cell_at(&self, i: FullIndex) -> Option<Cell> {
        cell_of(self@, i)
    }

    #[must_use]
    pub fn get(&self, index: FullIndex) -> (r: Option<&Cell>)
        requires
            self.wf(),
        ensures
            match r {
                Some(c) => self.cell_at(index) == Some(*c),
                None => self.cell_at(index) is None,
            },
    {
        proof {
            lemma_flatten_roundtrip(index.chunk_index, 0);
            if self.chunks.matrix@[index.chunk_index.flat()] is Some {
                assert(filled(self.chunks.matrix@, index.chunk_index.flat()));
            }
        }
        match self.chunks.index(index.chunk_index) {
            Some(c) => Some(c.index(index.cell_index)),
            None => None,
        }
    }

    /// Mutable access to the cell at `index`, if its chunk is loaded; nothing else changes.
    #[must_use]
    pub fn get_mut(&mut self, index: FullIndex) -> (r: Option<&mut Cell>)
        requires
            old(self).wf(),
        ensures
            final(self).chunks.wf(),
            final(self).chunks.len == old(self).chunks.len,
            final(self).chunks.min_elem == old(self).chunks.min_elem,
            final(self).chunks.max_elem == old(self).chunks.max_elem,
            final(self).chunks.matrix.wf(),
            match r {
                Some(c) => old(self).cell_at(index) == Some(*c) && final(self)@ == with_cell(
                    old(self)@,
                    index,
                    *final(c),
                ),
                None => old(self).cell_at(index) is None && final(self)@ == old(self)@,
            },
    {
        let ghost before = self@;
        let ghost k = index.chunk_index.flat();
        proof {
            lemma_flatten_roundtrip(index.chunk_index, 0);
            if self.chunks.matrix@[k] is Some {
                assert(filled(self.chunks.matrix@, k));
            }
        }
        match self.chunks.get_mut(index.chunk_index) {
            Some(c) => Some(c.index_mut(index.cell_index)),
            None => None,
        }
    }
}

/// The cells of a chunk form a full grid of cells of known kinds.
pub open spec fn cells_ok(cells: Seq<Cell>) -> bool {
    cells.len() == 65536 && forall|k: int| 0 <= k < 65536 ==> (#[trigger] cells[k]).valid()
}

/// A world whose entries keep their places, whose counters and box are kept, and whose loaded
/// chunks hold full grids of valid cells, is well formed again.
pub proof fn lemma_wf_from_view(old_map: ChunkMap, new_map: ChunkMap)
    requires
        old_map.wf(),
        new_map.chunks.matrix.wf(),
        new_map.chunks.len == old_map.chunks.len,
        new_map.chunks.min_elem == old_map.chunks.min_elem,
        new_map.chunks.max_elem == old_map.chunks.max_elem,
        forall|k: int| 0 <= k < 65536 ==> (#[trigger] new_map@[k] is Some <==> old_map@[k] is Some),
        forall|k: int| 0 <= k < 65536 && #[trigger] new_map@[k] is Some ==> cells_ok(new_map@[k].unwrap().0),
    ensures
        new_map.wf(),
{
    let a = old_map.chunks.matrix@;
    let b = new_map.chunks.matrix@;
    assert forall|k: int| 0 <= k < 65536 implies (#[trigger] a[k] is Some <==> b[k] is Some) by {
        assert(old_map@[k] is Some <==> a[k] is Some);
        assert(new_map@[k] is Some <==> b[k] is Some);
        assert(new_map@[k] is Some <==> old_map@[k] is Some);
    }
    lemma_same_pattern(a, b, old_map.chunks.min_elem, old_map.chunks.max_elem);
    assert forall|k: int| #[trigger] filled(b, k) implies b[k].unwrap().wf() by {
        assert(new_map@[k] is Some);
        assert(cells_ok(new_map@[k].unwrap().0));
    }
}

/// A voxel chunk that matched a chunk's cells still matches them after one cell changes,
/// once the cell's position is marked solid or not when its collision changed.
pub proof fn lemma_matches_after_update(
    v: VoxelChunk,
    v2: VoxelChunk,
    cells: Seq<Cell>,
    idx: MatrixIndex,
    c: Cell,
)
    requires
        v.matches(cells),
        cells.len() == 65536,
        c.collides() != cells[idx.flat()].collides() ==> v.added(v2, idx, c.collides()),
        c.collides() == cells[idx.flat()].collides() ==> v2.shape == v.shape && v2.voxels
            == v.voxels,
    ensures
        v2.matches(cells.update(idx.flat(), c)),
{
    let f = idx.flat();
    let n = cells.update(f, c);
    let key = (idx.x as int, idx.y as int);
    assert(flat_of(key.0, key.1) == f);
    lemma_collider_count_update(cells, f, c);
    assert forall|p: (int, int)|
        0 <= p.0 < 256 && 0 <= p.1 < 256 && p != key implies flat_of(p.0, p.1) != f by {
        lemma_flatten_roundtrip(idx, 0);
    }
    if c.collides() == cells[f].collides() {
        assert(collider_set(n) =~= collider_set(cells));
    } else if c.collides() {
        assert(collider_set(n) =~= collider_set(cells).insert(key));
    } else {
        assert(collider_set(n) =~= collider_set(cells).remove(key));
    }
}

/// Every loaded chunk of a well-formed world holds a full grid of valid cells.
pub proof fn lemma_wf_view(m: ChunkMap)
    requires
        m.wf(),
    ensures
        m@.len() == 65536,
        forall|k: int| 0 <= k < 65536 && #[trigger] m@[k] is Some ==> cells_ok(m@[k].unwrap().0),
{
    assert forall|k: int| 0 <= k < 65536 && #[trigger] m@[k] is Some implies cells_ok(m@[k].unwrap().0) by {
        assert(filled(m.chunks.matrix@, k));
        assert(m.chunks.matrix@[k].unwrap().wf());
    }
}

/// Every cell of a well-formed world is of a known kind.
pub proof fn lemma_cell_valid(m: ChunkMap, i: FullIndex)
    requires
        m.wf(),
        m.cell_at(i) is Some,
    ensures
        m.cell_at(i).unwrap().valid(),
        m@[i.chunk_index.flat()] is Some,
        cells_ok(m@[i.chunk_index.flat()].unwrap().0),
{
    let k = i.chunk_index.flat();
    lemma_flatten_roundtrip(i.chunk_index, 0);
    lemma_flatten_roundtrip(i.cell_index, 0);
    assert(filled(m.chunks.matrix@, k));
    let c = m.chunks.matrix@[k].unwrap();
    assert(c.wf());
    assert(c.cells@[i.cell_index.flat()].valid());
}

impl VoxelChunkMap {
    pub open spec fn wf(&self) -> bool {
        self.chunks.wf()
    }

    #[must_use]
    pub fn new() -> (m: Self)
        ensures
            m.wf(),
            forall|k: int| 0 <= k < 65536 ==> m.chunks.matrix@[k] is None,
    {
        VoxelChunkMap { chunks: MatrixBounded::new() }
    }

    /// Marks the cell at `index` solid (`into`) or not in the shape of its chunk, when that
    /// chunk's shape is present.
    pub fn add_voxel(&mut self, index: FullIndex, into: bool)
        requires
            old(self).wf(),
            old(self).chunks.at(index.chunk_index) matches Some(v) ==> v.can_add(into),
        ensures
            final(self).wf(),
            final(self).chunks.len == old(self).chunks.len,
            forall|k: int|
                0 <= k < 65536 && k != index.chunk_index.flat() ==> #[trigger] final(self).chunks.matrix@[k]
                    == old(self).chunks.matrix@[k],
            match old(self).chunks.at(index.chunk_index) {
                Some(v) => final(self).chunks.at(index.chunk_index) matches Some(v2) && v.added(
                    v2,
                    index.cell_index,
                    into,
                ),
                None => final(self).chunks.at(index.chunk_index) is None,
            },
    {
        if let Some(chunk) = self.chunks.get_mut(index.chunk_index) {
            chunk.add_voxel(index.cell_index, into);
        }
    }
}

impl Default for VoxelChunkMap {
    fn default() -> (m: Self)
        ensures
            m.wf(),
            forall|k: int| 0 <= k < 65536 ==> m.chunks.matrix@[k] is None,
    {
        VoxelChunkMap::new()
    }
}

impl ChunkMap {
    #[must_use]
    pub fn new() -> (m: Self)
        ensures
            m.wf(),
            forall|k: int| 0 <= k < 65536 ==> m@[k] is None,
    {
        ChunkMap { chunks: MatrixBounded::new() }
    }

    /// Replaces the cell at `index` (if its chunk is loaded) by a fresh cell of kind `id`, at
    /// rest and not yet advanced, keeping the collision shape in step when the cell starts or
    /// stops colliding.
    pub fn set(&mut self, voxel_chunk_map: &mut VoxelChunkMap, index: FullIndex, id: CellId)
        requires
            old(self).consistent(old(voxel_chunk_map)),
            id < CELL_COUNT,
        ensures
            final(self).consistent(final(voxel_chunk_map)),
            match old(self).cell_at(index) {
                Some(c) => final(self)@ == with_cell(old(self)@, index, Cell::fresh(id)),
                None => final(self)@ == old(self)@,
            },
            forall|k: int|
                0 <= k < 65536 && k != index.chunk_index.flat() ==> #[trigger] final(voxel_chunk_map).chunks.matrix@[k]
                    == old(voxel_chunk_map).chunks.matrix@[k],
    {
        let ghost w0 = *self;
        let ghost v0 = *voxel_chunk_map;
        let ghost ck = index.chunk_index.flat();
        proof {
            lemma_flatten_roundtrip(index.chunk_index, 0);
            lemma_flatten_roundtrip(index.cell_index, 0);
            if self.cell_at(index) is Some {
                lemma_cell_valid(*self, index);
                let cells = self@[ck].unwrap().0;
                lemma_collider_count_bound(cells);
                lemma_collider_count_update(
                    cells,
                    index.cell_index.flat(),
                    Cell { id: 0, ..cells[index.cell_index.flat()] },
                );
                assert(voxel_chunk_map.chunks.matrix@[ck].unwrap().matches(cells));
            }
        }
        if let Some(cell) = self.get_mut(index) {
            let was = cell.is_collider();
            *cell = Cell::new(id);
            let now = cell.is_collider();
            if now != was {
                voxel_chunk_map.add_voxel(index, now);
            }
        }
        proof {
            if w0.cell_at(index) is Some {
                let c = w0.cell_at(index).unwrap();
                let nc = Cell::fresh(id);
                let cells = w0@[ck].unwrap().0;
                let v = v0.chunks.matrix@[ck].unwrap();
                let v2 = voxel_chunk_map.chunks.matrix@[ck].unwrap();
                lemma_matches_after_update(v, v2, cells, index.cell_index, nc);
                assert forall|k: int| 0 <= k < 65536 && #[trigger] self@[k] is Some implies cells_ok(
                    self@[k].unwrap().0,
                ) by {
                    if k != ck {
                        assert(w0@[k] == self@[k]);
                        assert(filled(w0.chunks.matrix@, k));
                    } else {
                        assert(self@[k].unwrap().0 == cells.update(index.cell_index.flat(), nc));
                    }
                }
                lemma_wf_from_view(w0, *self);
                assert forall|k: int|
                    0 <= k < 65536 && #[trigger] self@[k] is Some implies voxel_chunk_map.chunks.matrix@[k].unwrap().matches(
                    self@[k].unwrap().0,
                ) by {
                    if k != ck {
                        assert(w0@[k] == self@[k]);
                    }
                }
                assert forall|k: int| 0 <= k < 65536 implies (#[trigger] self@[k] is Some
                    <==> voxel_chunk_map.chunks.matrix@[k] is Some) by {
                    if k != ck {
                        assert(w0@[k] == self@[k]);
                    }
                }
            } else {
                assert forall|k: int| 0 <= k < 65536 && #[trigger] self@[k] is Some implies cells_ok(
                    self@[k].unwrap().0,
                ) by {
                    assert(w0@[k] == self@[k]);
                    assert(filled(w0.chunks.matrix@, k));
                }
                lemma_wf_from_view(w0, *self);
            }
        }
    }
}

impl ChunkMap {
    pub fn index(&self, index: MatrixIndex) -> (r: &Option<Chunk>)
        requires
            self.wf(),
        ensures
            chunk_view(*r) == self@[index.flat()],
            *r == self.chunks.at(index),
    {
        self.chunks.index(index)
    }

    /// Loads the chunk `chunk` with its collision shape `voxel_chunk` at the free place
    /// `index`.
    pub fn insert(
        &mut self,
        voxel_chunk_map: &mut VoxelChunkMap,
        index: MatrixIndex,
        chunk_and_voxels: (Chunk, VoxelChunk),
    )
        requires
            old(self).consistent(old(voxel_chunk_map)),
            old(self)@[index.flat()] is None,
            chunk_and_voxels.0.wf(),
            chunk_and_voxels.1.matches(chunk_and_voxels.0.cells@),
        ensures
            final(self).consistent(final(voxel_chunk_map)),
            final(self)@ == old(self)@.update(
                index.flat(),
                Some((chunk_and_voxels.0.cells@, chunk_and_voxels.0.skip_simulation)),
            ),
            final(self).chunks.len == old(self).chunks.len + 1,
    {
        let (chunk, voxel_chunk) = chunk_and_voxels;
        let ghost w0 = *self;
        let ghost k = index.flat();
        proof {
            lemma_flatten_roundtrip(index, 0);
        }
        self.chunks.insert(index, chunk);
        voxel_chunk_map.chunks.insert(index, voxel_chunk);
        proof {
            assert(self@ =~= w0@.update(k, Some((chunk.cells@, chunk.skip_simulation))));
            assert forall|j: int| #[trigger] filled(self.chunks.matrix@, j) implies self.chunks.matrix@[j].unwrap().wf() by {
                if j != k {
                    assert(filled(w0.chunks.matrix@, j));
                }
            }
            assert forall|j: int| 0 <= j < 65536 implies (#[trigger] self@[j] is Some
                <==> voxel_chunk_map.chunks.matrix@[j] is Some) by {
                if j != k {
                    assert(w0@[j] == self@[j]);
                }
            }
            assert forall|j: int|
                0 <= j < 65536 && #[trigger] self@[j] is Some implies voxel_chunk_map.chunks.matrix@[j].unwrap().matches(
                self@[j].unwrap().0,
            ) by {
                if j != k {
                    assert(w0@[j] == self@[j]);
                }
            }
        }
    }

    /// Unloads the chunk at `index` together with its collision shape.
    pub fn remove(&mut self, voxel_chunk_map: &mut VoxelChunkMap, index: MatrixIndex)
        requires
            old(self).consistent(old(voxel_chunk_map)),
            old(self)@[index.flat()] is Some,
        ensures
            final(self).consistent(final(voxel_chunk_map)),
            final(self)@ == old(self)@.update(index.flat(), None),
            final(self).chunks.len == old(self).chunks.len - 1,
    {
        let ghost w0 = *self;
        let ghost k = index.flat();
        proof {
            lemma_flatten_roundtrip(index, 0);
        }
        let _chunk = self.chunks.remove(index);
        let _voxel_chunk = voxel_chunk_map.chunks.remove(index);
        proof {
            assert(self@ =~= w0@.update(k, None));
            assert forall|j: int| #[trigger] filled(self.chunks.matrix@, j) implies self.chunks.matrix@[j].unwrap().wf() by {
                assert(filled(w0.chunks.matrix@, j));
            }
            assert forall|j: int| 0 <= j < 65536 implies (#[trigger] self@[j] is Some
                <==> voxel_chunk_map.chunks.matrix@[j] is Some) by {
                if j != k {
                    assert(w0@[j] == self@[j]);
                }
            }
            assert forall|j: int|
                0 <= j < 65536 && #[trigger] self@[j] is Some implies voxel_chunk_map.chunks.matrix@[j].unwrap().matches(
                self@[j].unwrap().0,
            ) by {
                assert(w0@[j] == self@[j]);
            }
        }
    }

    /// Loads an all-air chunk at `index` unless a chunk is already there.
    pub fn load(&mut self, voxel_chunk_map: &mut VoxelChunkMap, index: MatrixIndex)
        requires
            old(self).consistent(old(voxel_chunk_map)),
        ensures
            final(self).consistent(final(voxel_chunk_map)),
            old(self)@[index.flat()] is Some ==> final(self)@ == old(self)@,
            old(self)@[index.flat()] is None ==> final(self)@ == old(self)@.update(
                index.flat(),
                Some((Seq::new(65536, |_k: int| Cell::fresh(0)), false)),
            ),
    {
        if self.index(index).is_none() {
            let mut ids: Vec<CellId> = Vec::new();
            let mut i: usize = 0;
            while i < 65536
                invariant
                    i <= 65536,
                    ids@.len() == i,
                    forall|k: int| 0 <= k < i ==> #[trigger] ids@[k] == 0,
                decreases 65536 - i,
            {
                ids.push(0);
                i = i + 1;
            }
            let pair = Chunk::new(&ids);
            proof {
                assert(pair.0.cells@ =~= Seq::new(65536, |_k: int| Cell::fresh(0)));
            }
            self.insert(voxel_chunk_map, index, pair);
        }
    }
}

impl Default for ChunkMap {
    fn default() -> (m: Self)
        ensures
            m.wf(),
            forall|k: int| 0 <= k < 65536 ==> m@[k] is None,
    {
        ChunkMap::new()
    }
}
} // verus!
