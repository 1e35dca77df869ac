use crate::cell::{Cell, CellId, CELL_COUNT};
use crate::matrix::{flat_of, Matrix, MatrixIndex};
use avian2d::parry::math::{IVector, Vector};
use avian2d::parry::shape::{SharedShape, Voxels};
use vstd::prelude::*;

verus! {

#[verifier::external_type_specification]
#[verifier::external_body]
pub struct ExSharedShape(SharedShape);

/// The grid cells that a voxel shape has filled, as `(x, y)` keys.
pub uninterp spec fn filled_voxels(shape: SharedShape) -> Set<(int, int)>;

/// Whether a shape is a voxel shape (the only kind whose voxels can be set).
pub uninterp spec fn is_voxel_shape(shape: SharedShape) -> bool;

/// An empty voxel shape with voxels of unit size: calls `Voxels::new(Vector::ONE, &[])`
/// and wraps it with `SharedShape::new`. Claimed: the result is a voxel shape with no voxel
/// filled (`Voxels::new` fills exactly the keys it is given).
#[verifier::external_body]
fn empty_voxel_shape() -> (s: SharedShape)
    ensures
        is_voxel_shape(s),
        filled_voxels(s) == Set::<(int, int)>::empty(),
{
    SharedShape::new(Voxels::new(Vector::ONE, &[]))
}

/// Fills or empties the voxel at `(x, y)`: calls `Voxels::set_voxel` on the shape, reached
/// through `SharedShape::make_mut` and `Shape::as_voxels_mut` (which is `Some` for a voxel
/// shape). Claimed: afterwards the shape is still a voxel shape, and its filled keys are the
/// old ones with `(x, y)` added when `filled` holds and removed otherwise; `set_voxel`
/// changes a voxel's state only when the new state differs. The key is kept within a chunk's
/// 256 x 256 grid: `set_voxel` updates the neighbours' counts at `x ± 1` and `y ± 1`, which
/// would overflow at the ends of the `i32` range.
#[verifier::external_body]
fn set_shape_voxel(shape: &mut SharedShape, x: i32, y: i32, filled: bool)
    requires
        is_voxel_shape(*old(shape)),
        0 <= x < 256,
        0 <= y < 256,
    ensures
        is_voxel_shape(*final(shape)),
        filled_voxels(*final(shape)) == if filled {
            filled_voxels(*old(shape)).insert((x as int, y as int))
        } else {
            filled_voxels(*old(shape)).remove((x as int, y as int))
        },
{
    let _ = shape.make_mut().as_voxels_mut().unwrap().set_voxel(IVector::new(x, y), filled);
}

/// The positions of a chunk's cells that collide, as `(x, y)` keys.
pub open spec fn collider_set(cells: Seq<Cell>) -> Set<(int, int)> {
    Set::new(
        |p: (int, int)|
            0 <= p.0 < 256 && 0 <= p.1 < 256 && flat_of(p.0, p.1) < cells.len() && cells[flat_of(
                p.0,
                p.1,
            )].collides(),
    )
}

/// Number of cells that collide.
pub open spec fn collider_count(cells: Seq<Cell>) -> nat
    decreases cells.len(),
{
    if cells.len() == 0 {
        0
    } else {
        collider_count(cells.drop_last()) + if cells.last().collides() {
            1nat
        } else {
            0nat
        }
    }
}

/// Replacing one cell changes the number of colliding cells by what it removes and adds.
pub proof fn lemma_collider_count_update(s: Seq<Cell>, i: int, v: Cell)
    requires
        0 <= i < s.len(),
    ensures
        collider_count(s.update(i, v)) + (if s[i].collides() {
            1int
        } else {
            0int
        }) == collider_count(s) + (if v.collides() {
            1int
        } else {
            0int
        }),
    decreases s.len(),
{
    let u = s.update(i, v);
    if i == s.len() - 1 {
        assert(u.drop_last() =~= s.drop_last());
    } else {
        assert(u.drop_last() =~= s.drop_last().update(i, v));
        lemma_collider_count_update(s.drop_last(), i, v);
    }
}

pub proof fn lemma_collider_count_bound(s: Seq<Cell>)
    ensures
        collider_count(s) <= s.len(),
    decreases s.len(),
{
    if s.len() > 0 {
        lemma_collider_count_bound(s.drop_last());
    }
}

/// The cells of one chunk of the world.
pub struct Chunk {
    pub cells: Box<Matrix<Cell>>,
    pub skip_simulation: bool,
}

/// The collision shape of one chunk: which of its cells are solid, how many, whether the
/// shape changed since the collider was last built, and the collider's entity (as bits).
pub struct VoxelChunk {
    pub voxels_modified: bool,
    pub collider: Option<u64>,
    pub shape: SharedShape,
    pub voxels: usize,
}

impl Chunk {
    pub open spec fn wf(&self) -> bool {
        &&& self.cells.wf()
        &&& forall|k: int| 0 <= k < 65536 ==> (#[trigger] self.cells@[k]).valid()
    }

    /// A chunk whose cells are fresh cells of the kinds `ids` (row by row), with the
    /// collision shape that matches them.
    pub fn new(ids: &Vec<CellId>) -> (r: (Chunk, VoxelChunk))
        requires
            ids@.len() == 65536,
            forall|k: int| 0 <= k < 65536 ==> #[trigger] ids@[k] < CELL_COUNT,
        ensures
            r.0.wf(),
            forall|k: int| 0 <= k < 65536 ==> #[trigger] r.0.cells@[k] == Cell::fresh(ids@[k]),
            !r.0.skip_simulation,
            r.1.matches(r.0.cells@),
            r.1.voxels_modified,
            r.1.collider is None,
    {
        let mut cells: Vec<Cell> = Vec::new();
        let mut shape = empty_voxel_shape();
        let mut voxels: usize = 0;
        let mut i: usize = 0;
        while i < 65536
            invariant
                i <= 65536,
                ids@.len() == 65536,
                forall|k: int| 0 <= k < 65536 ==> #[trigger] ids@[k] < CELL_COUNT,
                cells@.len() == i,
                forall|k: int| 0 <= k < i ==> #[trigger] cells@[k] == Cell::fresh(ids@[k]),
                is_voxel_shape(shape),
                filled_voxels(shape) == collider_set(cells@),
                voxels == collider_count(cells@),
            decreases 65536 - i,
        {
            let cell_index = MatrixIndex::from(i as u16);
            let cell = Cell::new(ids[i]);
            let ghost before = cells@;
            proof {
                lemma_collider_count_bound(before);
            }
            if cell.is_collider() {
                voxels = voxels + 1;
                set_shape_voxel(&mut shape, cell_index.x as i32, cell_index.y as i32, true);
            }
            cells.push(cell);
            proof {
                assert(cells@.drop_last() =~= before);
                let key = (cell_index.x as int, cell_index.y as int);
                assert(flat_of(key.0, key.1) == i);
                if cell.collides() {
                    assert(collider_set(cells@) =~= collider_set(before).insert(key));
                } else {
                    assert(collider_set(cells@) =~= collider_set(before));
                }
            }
            i = i + 1;
        }
        let chunk = Chunk { cells: Box::new(Matrix { elems: cells }), skip_simulation: false };
        (chunk, VoxelChunk { voxels_modified: true, collider: None, shape, voxels })
    }

    pub fn index(&self, index: MatrixIndex) -> (r: &Cell)
        requires
            self.wf(),
        ensures
            *r == self.cells.at(index),
    {
        self.cells.index(index)
    }

    pub fn index_mut(&mut self, index: MatrixIndex) -> (r: &mut Cell)
        requires
            old(self).wf(),
        ensures
            *r == old(self).cells.at(index),
            final(self).cells@ == old(self).cells@.update(index.flat(), *final(r)),
            final(self).skip_simulation == old(self).skip_simulation,
    {
        self.cells.index_mut(index)
    }
}

impl VoxelChunk {
    /// The collision shape agrees with the chunk's cells: it is a voxel shape whose filled
    /// voxels are exactly the colliding cells, and the counter holds their number.
    pub open spec fn matches(&self, cells: Seq<Cell>) -> bool {
        &&& is_voxel_shape(self.shape)
        &&& filled_voxels(self.shape) == collider_set(cells)
        &&& self.voxels == collider_count(cells)
    }

    /// `after` is this voxel chunk with the cell at `index` marked solid (`into`) or not.
    pub open spec fn added(&self, after: VoxelChunk, index: MatrixIndex, into: bool) -> bool {
        &&& after.voxels_modified
        &&& after.collider == self.collider
        &&& is_voxel_shape(after.shape)
        &&& filled_voxels(after.shape) == if into {
            filled_voxels(self.shape).insert((index.x as int, index.y as int))
        } else {
            filled_voxels(self.shape).remove((index.x as int, index.y as int))
        }
        &&& after.voxels == if into {
            self.voxels + 1
        } else {
            self.voxels - 1
        }
    }

    /// `add_voxel(_, into)` can run: the shape is a voxel shape and the counter neither
    /// overflows nor underflows.
    pub open spec fn can_add(&self, into: bool) -> bool {
        &&& is_voxel_shape(self.shape)
        &&& into ==> self.voxels < usize::MAX
        &&& !into ==> self.voxels > 0
    }

    /// Marks the cell at `index` as solid (`into`) or not, counting it in or out.
    pub fn add_voxel(&mut self, index: MatrixIndex, into: bool)
        requires
            old(self).can_add(into),
        ensures
            old(self).added(*final(self), index, into),
    {
        self.voxels_modified = true;
        set_shape_voxel(&mut self.shape, index.x as i32, index.y as i32, into);
        if into {
            self.voxels = self.voxels + 1;
        } else {
            self.voxels = self.voxels - 1;
        }
    }
}

} // verus!
