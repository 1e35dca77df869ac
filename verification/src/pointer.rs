use crate::cell::{cells, kind_name, Cell, CellId, CELL_COUNT};
use crate::chunk_map::{cell_of, lemma_wf_view, with_cell, ChunkMap, FullIndex, VoxelChunkMap};
use crate::shapes::circle::{circle_points, circle_wf, reach, Circle, CircleView};
use vstd::prelude::*;

verus! {

/// Marks the text that tells which cell lies under the pointer.
pub struct DiagnosticUi;

/// The name that the text under the pointer shows before the cell's place: with control held
/// and the cell's chunk loaded, the name of its kind; otherwise none, and the text shows the
/// place alone.
pub fn diagnostic_name(world: &ChunkMap, index: FullIndex, ctrl: bool) -> (r: Option<&'static str>)
    requires
        world.wf(),
    ensures
        match r {
            Some(name) => ctrl && world.cell_at(index) is Some && name@ == kind_name(world.cell_at(index).unwrap().id),
            None => !(ctrl && world.cell_at(index) is Some),
        },
{
    if !ctrl {
        return None;
    }
    proof {
        lemma_wf_view(*world);
    }
    match world.get(index) {
        Some(cell) => Some(cells(cell.id).name),
        None => None,
    }
}

/// The radius of the brush that paints cells under the pointer.
pub const BRUSH_RADIUS: u16 = 8;

/// The kind of cell the pointer paints: with the left button stone when shift is held and
/// sand otherwise, with the middle button steam, and with the right button water.
pub fn brush_kind(left: bool, mid: bool, shift: bool) -> (r: CellId)
    ensures
        r == if left {
            if shift {
                6u16
            } else {
                9u16
            }
        } else if mid {
            3u16
        } else {
            2u16
        },
        r < CELL_COUNT,
{
    if left {
        if shift {
            6
        } else {
            9
        }
    } else if mid {
        3
    } else {
        2
    }
}

/// The world view with the cell at `i` (if its chunk is loaded) replaced by a fresh cell of
/// kind `id`.
pub open spec fn set_view(v: Seq<Option<(Seq<Cell>, bool)>>, i: FullIndex, id: CellId) -> Seq<
    Option<(Seq<Cell>, bool)>,
> {
    match cell_of(v, i) {
        Some(_) => with_cell(v, i, Cell::fresh(id)),
        None => v,
    }
}

/// The world view with the cells at the world positions `pts` replaced, in order, by fresh
/// cells of kind `id`.
pub open spec fn painted(v: Seq<Option<(Seq<Cell>, bool)>>, pts: Seq<(u16, u16)>, id: CellId) -> Seq<
    Option<(Seq<Cell>, bool)>,
>
    decreases pts.len(),
{
    if pts.len() == 0 {
        v
    } else {
        set_view(painted(v, pts.drop_last(), id), FullIndex::of_world(pts.last().0 as int, pts.last().1 as int), id)
    }
}

/// The state of a brush circle around `(px, py)` before its first point.
pub open spec fn brush_start(px: u16, py: u16) -> CircleView {
    CircleView {
        x0: px,
        y0: py,
        octant: 255,
        dx: 0,
        dy: 0,
        y: 0,
        start: 1,
        end: 0,
        circ: (BRUSH_RADIUS, 0u16, BRUSH_RADIUS / 16),
    }
}

impl ChunkMap {
    /// Turns the cells at the world positions `pts` (those in loaded chunks) into kind `id`,
    /// in order.
    pub fn set_all(&mut self, voxel_world: &mut VoxelChunkMap, pts: &[(u16, u16)], id: CellId)
        requires
            old(self).consistent(old(voxel_world)),
            id < CELL_COUNT,
        ensures
            final(self).consistent(final(voxel_world)),
            final(self)@ == painted(old(self)@, pts@, id),
    {
        let mut k: usize = 0;
        while k < pts.len()
            invariant
                self.consistent(voxel_world),
                id < CELL_COUNT,
                k <= pts@.len(),
                self@ == painted(old(self)@, pts@.subrange(0, k as int), id),
            decreases pts@.len() - k,
        {
            let (x, y) = pts[k];
            let index = FullIndex::from((x, y));
            self.set(voxel_world, index, id);
            proof {
                let s = pts@.subrange(0, k + 1);
                assert(s.drop_last() =~= pts@.subrange(0, k as int));
                assert(s.last() == (x, y));
            }
            k = k + 1;
        }
        proof {
            assert(pts@.subrange(0, pts@.len() as int) =~= pts@);
        }
    }

    /// Paints a disc of cells of kind `id` around the world position `(px, py)`, as the
    /// pointer does: every point of the brush circle, in the order the circle gives them.
    pub fn spawn_cells(&mut self, voxel_world: &mut VoxelChunkMap, px: u16, py: u16, id: CellId)
        requires
            old(self).consistent(old(voxel_world)),
            id < CELL_COUNT,
            BRUSH_RADIUS <= reach(px, py),
        ensures
            final(self).consistent(final(voxel_world)),
            final(self)@ == painted(old(self)@, circle_points(brush_start(px, py)), id),
    {
        let circle = Circle::new(px, py, BRUSH_RADIUS);
        proof {
            assert(circle@ == brush_start(px, py));
            assert(circle_wf(circle@));
        }
        let pts = circle.points();
        self.set_all(voxel_world, pts.as_slice(), id);
    }
}

} // verus!
