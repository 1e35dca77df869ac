use crate::cell::{friction_axis, kind_color, kind_density, Cell, CellColor, CellFriction, CellType, CellVelocity};
use crate::shapes::line::{
    abs_int, error_bound, lemma_init_inv, lemma_step, line_ok, line_points, moved_by, signed16, LineFullIter,
    LineIter,
};
use crate::chunk::{lemma_collider_count_bound, lemma_collider_count_update};
use crate::chunk_map::{
    cell_of, cells_ok, lemma_cell_valid, shapes_touched, shapes_marked, lemma_touched_marked, lemma_marked_trans, lemma_touched_none, lemma_touched_trans, lemma_matches_after_update, lemma_wf_from_view, lemma_wf_view, with_cell,
    ChunkMap, FullIndex, VoxelChunkMap,
};
use crate::matrix::{
    filled, lemma_flatten_order, lemma_flatten_roundtrip, lemma_same_pattern, row_from, rows_from, MatrixIndex,
};
use rand::distr::{Bernoulli, Uniform};
use rand::rngs::SmallRng;
use rand::RngExt as _;
use std::time::{Duration, Instant};
use vstd::prelude::*;

verus! {

/// One of the eight directions in which a cell can move.
#[derive(Clone, Copy, Debug, PartialEq, Eq, Structural)]
pub enum Direction {
    UpLeft,
    Up,
    UpRight,
    Left,
    Right,
    DownLeft,
    Down,
    DownRight,
}


/// The world view with the cells at `i` and `j` exchanged.
pub open spec fn exchanged(
    v: Seq<Option<(Seq<Cell>, bool)>>,
    i: FullIndex,
    j: FullIndex,
) -> Seq<Option<(Seq<Cell>, bool)>> {
    with_cell(with_cell(v, i, cell_of(v, j).unwrap()), j, cell_of(v, i).unwrap())
}

/// The chunks whose collision shapes a swap of the cells at `i` and `j` touches: theirs, when
/// exactly one of the two cells collides; none otherwise.
pub open spec fn swap_touch(v: Seq<Option<(Seq<Cell>, bool)>>, i: FullIndex, j: FullIndex) -> Set<int> {
    if cell_of(v, i).unwrap().collides() != cell_of(v, j).unwrap().collides() {
        set![i.chunk_index.flat(), j.chunk_index.flat()]
    } else {
        Set::empty()
    }
}

impl ChunkMap {
    /// Exchanges the cells at `index` and `swap_index` (both in loaded chunks), and updates
    /// the collision shapes when exactly one of the two cells collides.
    pub fn swap(&mut self, voxel_world: &mut VoxelChunkMap, index: FullIndex, swap_index: FullIndex)
        requires
            old(self).consistent(old(voxel_world)),
            old(self).cell_at(index) is Some,
            old(self).cell_at(swap_index) is Some,
        ensures
            final(self).consistent(final(voxel_world)),
            final(self)@ == exchanged(old(self)@, index, swap_index),
            final(self).chunks.len == old(self).chunks.len,
            same_loaded(old(self)@, final(self)@),
            shapes_touched(
                old(voxel_world).chunks.matrix@,
                final(voxel_world).chunks.matrix@,
                swap_touch(old(self)@, index, swap_index),
            ),
    {
        proof {
            lemma_wf_view(*self);
            lemma_same_loaded(self@, index, swap_index, Cell::fresh(0));
        }
        let ghost w0 = *self;
        let ghost v0 = *voxel_world;
        let ghost ka = index.chunk_index.flat();
        let ghost kb = swap_index.chunk_index.flat();
        let ghost fa = index.cell_index.flat();
        let ghost fb = swap_index.cell_index.flat();
        let ghost ca = w0.cell_at(index).unwrap();
        let ghost cb = w0.cell_at(swap_index).unwrap();
        proof {
            lemma_cell_valid(*self, index);
            lemma_cell_valid(*self, swap_index);
            lemma_flatten_roundtrip(index.chunk_index, 0);
            lemma_flatten_roundtrip(swap_index.chunk_index, 0);
            lemma_flatten_roundtrip(index.cell_index, 0);
            lemma_flatten_roundtrip(swap_index.cell_index, 0);
        }
        let is_a = self.get(index).unwrap().is_collider();
        let is_b = self.get(swap_index).unwrap().is_collider();
        let ghost cells_a = w0@[ka].unwrap().0;
        let ghost cells_b = w0@[kb].unwrap().0;
        let ghost mid = if ka == kb {
            cells_a.update(fb, ca)
        } else {
            cells_a
        };
        let ghost mut v1 = *voxel_world;
        if is_a != is_b {
            proof {
                lemma_collider_count_bound(cells_b);
                lemma_collider_count_update(cells_b, fb, ca);
                assert(voxel_world.chunks.matrix@[kb].unwrap().matches(cells_b));
            }
            voxel_world.add_voxel(swap_index, is_a);
            proof {
                v1 = *voxel_world;
                let vb = v0.chunks.matrix@[kb].unwrap();
                let vb2 = voxel_world.chunks.matrix@[kb].unwrap();
                lemma_matches_after_update(vb, vb2, cells_b, swap_index.cell_index, ca);
                lemma_collider_count_bound(cells_b.update(fb, ca));
                if ka == kb {
                    lemma_collider_count_update(mid, fa, cb);
                } else {
                    lemma_collider_count_bound(cells_a);
                    lemma_collider_count_update(cells_a, fa, cb);
                    assert(voxel_world.chunks.matrix@[ka] == v0.chunks.matrix@[ka]);
                }
            }
            voxel_world.add_voxel(index, is_b);
        }
        if index.chunk_index == swap_index.chunk_index {
            match self.chunks.get_mut(index.chunk_index) {
                Some(chunk) => {
                    chunk.cells.swap(index.cell_index, swap_index.cell_index);
                },
                None => {},
            }
        } else {
            let (from, to) = self.chunks.matrix.get_disjoint_mut(
                [index.chunk_index, swap_index.chunk_index],
            );
            match from {
                Some(from) => match to {
                    Some(to) => {
                        std::mem::swap(
                            from.index_mut(index.cell_index),
                            to.index_mut(swap_index.cell_index),
                        );
                    },
                    None => {},
                },
                None => {},
            }
        }
        proof {
            let v = self@;
            let new_a = v[ka].unwrap().0;
            let new_b = v[kb].unwrap().0;
            if ka == kb {
                assert(new_a =~= mid.update(fa, cb));
            } else {
                assert(new_a =~= cells_a.update(fa, cb));
                assert(new_b =~= cells_b.update(fb, ca));
            }
            assert forall|k: int| 0 <= k < 65536 && #[trigger] v[k] is Some implies cells_ok(
                v[k].unwrap().0,
            ) by {
                if k != ka && k != kb {
                    assert(w0@[k] == v[k]);
                    assert(filled(w0.chunks.matrix@, k));
                }
            }
            assert forall|k: int| 0 <= k < 65536 implies (#[trigger] w0.chunks.matrix@[k] is Some
                <==> self.chunks.matrix@[k] is Some) by {
                assert(w0@[k] is Some <==> w0.chunks.matrix@[k] is Some);
                assert(v[k] is Some <==> self.chunks.matrix@[k] is Some);
                if k != ka && k != kb {
                    assert(w0@[k] == v[k]);
                }
            }
            lemma_same_pattern(
                w0.chunks.matrix@,
                self.chunks.matrix@,
                w0.chunks.min_elem,
                w0.chunks.max_elem,
            );
            lemma_wf_from_view(w0, *self);
            let vfa = v0.chunks.matrix@[ka].unwrap();
            let vfb = v0.chunks.matrix@[kb].unwrap();
            let vna = voxel_world.chunks.matrix@[ka].unwrap();
            let vnb = voxel_world.chunks.matrix@[kb].unwrap();
            if is_a != is_b {
                if ka == kb {
                    let vm = v1.chunks.matrix@[ka].unwrap();
                    lemma_matches_after_update(vm, vna, mid, index.cell_index, cb);
                } else {
                    lemma_matches_after_update(vfa, vna, cells_a, index.cell_index, cb);
                }
            } else {
                lemma_matches_after_update(vfb, vfb, cells_b, swap_index.cell_index, ca);
                if ka == kb {
                    lemma_matches_after_update(vfb, vfb, mid, index.cell_index, cb);
                } else {
                    lemma_matches_after_update(vfa, vfa, cells_a, index.cell_index, cb);
                }
            }
            assert forall|k: int|
                0 <= k < 65536 && #[trigger] v[k] is Some implies voxel_world.chunks.matrix@[k].unwrap().matches(
                v[k].unwrap().0,
            ) by {
                if k != ka && k != kb {
                    assert(w0@[k] == v[k]);
                }
            }
            assert forall|k: int| 0 <= k < 65536 implies (#[trigger] v[k] is Some
                <==> voxel_world.chunks.matrix@[k] is Some) by {
                if k != ka && k != kb {
                    assert(w0@[k] == v[k]);
                }
            }
            assert(w0@[ka] is Some <==> v0.chunks.matrix@[ka] is Some);
            assert(w0@[kb] is Some <==> v0.chunks.matrix@[kb] is Some);
            if is_a != is_b {
                assert(v1.chunks.matrix@[ka] is Some);
            }
        }
    }
}

/// The move from `i` along `v` stays in the world and, on each axis, in the half of the `u16`
/// range where it starts: there the line's signed differences are the true ones.
pub open spec fn move_ok(i: FullIndex, v: CellVelocity) -> bool {
    &&& 0 <= moved_by(i.world_x(), v.x) <= 0xffff
    &&& 0 <= moved_by(i.world_y(), v.y) <= 0xffff
    &&& (i.world_x() < 0x8000) == (moved_by(i.world_x(), v.x) < 0x8000)
    &&& (i.world_y() < 0x8000) == (moved_by(i.world_y(), v.y) < 0x8000)
}

/// A move of at most 4 cells per axis that stays in its halves is a line that can be walked
/// to its end.
pub proof fn lemma_move_ok(i: FullIndex, v: CellVelocity)
    requires
        move_ok(i, v),
        -4 <= v.x <= 4,
        -4 <= v.y <= 4,
    ensures
        line_ok(
            i.world_x() as u16,
            i.world_y() as u16,
            moved_by(i.world_x(), v.x) as u16,
            moved_by(i.world_y(), v.y) as u16,
        ),
{
    let x0 = i.world_x() as u16;
    let y0 = i.world_y() as u16;
    let x1 = moved_by(i.world_x(), v.x) as u16;
    let y1 = moved_by(i.world_y(), v.y) as u16;
    assert(signed16(x1) - signed16(x0) == x1 - x0);
    assert(signed16(y1) - signed16(y0) == y1 - y0);
    assert(abs_int(x1 - x0) <= 4 && abs_int(y1 - y0) <= 4);
    assert(error_bound(abs_int(x1 - x0), abs_int(y1 - y0)) <= 6);
}

/// Whether the move from `i` along `v` stays in the world and in its halves of the `u16` range.
fn move_fits(i: FullIndex, v: CellVelocity) -> (r: bool)
    ensures
        r == move_ok(i, v),
{
    let (x0, y0) = i.to_u16();
    let x1: i32 = x0 as i32 + v.x as i32;
    let y1: i32 = y0 as i32 + v.y as i32;
    0 <= x1 && x1 <= 0xffff && 0 <= y1 && y1 <= 0xffff && ((x0 < 0x8000) == (x1 < 0x8000)) && ((y0
        < 0x8000) == (y1 < 0x8000))
}

impl ChunkMap {
    /// Replaces the cell at `index` by `c`, which collides exactly when the old cell did.
    pub(crate) fn replace_cell(&mut self, voxel_world: &VoxelChunkMap, index: FullIndex, c: Cell)
        requires
            old(self).consistent(voxel_world),
            old(self).cell_at(index) is Some,
            c.valid(),
            c.collides() == old(self).cell_at(index).unwrap().collides(),
        ensures
            final(self).consistent(voxel_world),
            final(self)@ == with_cell(old(self)@, index, c),
            final(self).chunks.len == old(self).chunks.len,
            same_loaded(old(self)@, final(self)@),
    {
        proof {
            lemma_wf_view(*self);
            lemma_same_loaded(self@, index, index, c);
        }
        let ghost w0 = *self;
        let ghost ck = index.chunk_index.flat();
        proof {
            lemma_cell_valid(*self, index);
            lemma_flatten_roundtrip(index.chunk_index, 0);
            lemma_flatten_roundtrip(index.cell_index, 0);
        }
        match self.get_mut(index) {
            Some(p) => {
                *p = c;
            },
            None => {},
        }
        proof {
            let cells = w0@[ck].unwrap().0;
            let v = voxel_world.chunks.matrix@[ck].unwrap();
            lemma_matches_after_update(v, v, cells, index.cell_index, c);
            assert forall|k: int| 0 <= k < 65536 && #[trigger] self@[k] is Some implies cells_ok(
                self@[k].unwrap().0,
            ) by {
                if k != ck {
                    assert(w0@[k] == self@[k]);
                    assert(filled(w0.chunks.matrix@, k));
                }
            }
            lemma_wf_from_view(w0, *self);
            assert forall|k: int|
                0 <= k < 65536 && #[trigger] self@[k] is Some implies voxel_world.chunks.matrix@[k].unwrap().matches(
                self@[k].unwrap().0,
            ) by {
                if k != ck {
                    assert(w0@[k] == self@[k]);
                }
            }
            assert forall|k: int| 0 <= k < 65536 implies (#[trigger] self@[k] is Some
                <==> voxel_world.chunks.matrix@[k] is Some) by {
                if k != ck {
                    assert(w0@[k] == self@[k]);
                }
            }
        }
    }
}

/// The same chunks are loaded in both world views.
pub open spec fn same_chunks(a: Seq<Option<(Seq<Cell>, bool)>>, b: Seq<Option<(Seq<Cell>, bool)>>) -> bool {
    &&& a.len() == b.len()
    &&& forall|k: int| 0 <= k < a.len() ==> (#[trigger] a[k] is Some <==> b[k] is Some)
}

/// The same chunks are loaded in both world views, each with the same skip mark.
pub open spec fn same_loaded(a: Seq<Option<(Seq<Cell>, bool)>>, b: Seq<Option<(Seq<Cell>, bool)>>) -> bool {
    &&& same_chunks(a, b)
    &&& forall|k: int| 0 <= k < a.len() && #[trigger] a[k] is Some ==> a[k].unwrap().1 == b[k].unwrap().1
}

/// Keeping the same marks of loaded chunks is transitive.
pub proof fn lemma_same_loaded_trans(
    a: Seq<Option<(Seq<Cell>, bool)>>,
    b: Seq<Option<(Seq<Cell>, bool)>>,
    c: Seq<Option<(Seq<Cell>, bool)>>,
)
    requires
        same_loaded(a, b),
        same_loaded(b, c),
    ensures
        same_loaded(a, c),
{
    assert forall|k: int| 0 <= k < a.len() implies (#[trigger] a[k] is Some <==> c[k] is Some) by {
        assert(b[k] is Some <==> c[k] is Some);
    }
    assert forall|k: int| 0 <= k < a.len() && #[trigger] a[k] is Some implies a[k].unwrap().1 == c[k].unwrap().1 by {
        assert(b[k] is Some);
    }
}

/// Replacing or exchanging cells keeps which chunks are loaded.
pub proof fn lemma_same_loaded(v: Seq<Option<(Seq<Cell>, bool)>>, i: FullIndex, j: FullIndex, c: Cell)
    requires
        v.len() == 65536,
    ensures
        same_loaded(v, with_cell(v, i, c)),
        same_loaded(v, exchanged(v, i, j)),
{
    lemma_flatten_roundtrip(i.chunk_index, 0);
    lemma_flatten_roundtrip(j.chunk_index, 0);
    let w = with_cell(v, i, c);
    assert forall|k: int| 0 <= k < v.len() implies (#[trigger] v[k] is Some <==> w[k] is Some) by {}
    let e1 = with_cell(v, i, cell_of(v, j).unwrap());
    let e = exchanged(v, i, j);
    assert forall|k: int| 0 <= k < v.len() implies (#[trigger] v[k] is Some <==> e[k] is Some) by {
        assert(v[k] is Some <==> e1[k] is Some);
    }
}

/// Replacing a cell keeps which cells exist.
pub proof fn lemma_with_cell_loaded(
    v: Seq<Option<(Seq<Cell>, bool)>>,
    i: FullIndex,
    c: Cell,
    j: FullIndex,
)
    requires
        v.len() == 65536,
    ensures
        cell_of(with_cell(v, i, c), j) is Some <==> cell_of(v, j) is Some,
        with_cell(v, i, c).len() == 65536,
{
    lemma_flatten_roundtrip(i.chunk_index, 0);
    lemma_flatten_roundtrip(j.chunk_index, 0);
}

/// Putting back the cell that is already there changes nothing; so exchanging a cell with
/// itself changes nothing.
pub proof fn lemma_exchange_self(v: Seq<Option<(Seq<Cell>, bool)>>, j: FullIndex)
    requires
        v.len() == 65536,
        cell_of(v, j) is Some,
        v[j.chunk_index.flat()].unwrap().0.len() == 65536,
    ensures
        with_cell(v, j, cell_of(v, j).unwrap()) == v,
        exchanged(v, j, j) == v,
{
    let k = j.chunk_index.flat();
    lemma_flatten_roundtrip(j.chunk_index, 0);
    let cells = v[k].unwrap().0;
    assert(cells.update(j.cell_index.flat(), cells[j.cell_index.flat()]) =~= cells);
    assert(with_cell(v, j, cell_of(v, j).unwrap()) =~= v);
}

/// Exchanging two cells twice gives back the world as it was.
pub proof fn lemma_exchange_twice(v: Seq<Option<(Seq<Cell>, bool)>>, i: FullIndex, j: FullIndex)
    requires
        v.len() == 65536,
        cell_of(v, i) is Some,
        cell_of(v, j) is Some,
        v[i.chunk_index.flat()].unwrap().0.len() == 65536,
        v[j.chunk_index.flat()].unwrap().0.len() == 65536,
    ensures
        exchanged(exchanged(v, i, j), i, j) == v,
{
    lemma_flatten_roundtrip(i.chunk_index, 0);
    lemma_flatten_roundtrip(j.chunk_index, 0);
    lemma_flatten_roundtrip(i.cell_index, 0);
    lemma_flatten_roundtrip(j.cell_index, 0);
    let e = exchanged(v, i, j);
    let ki = i.chunk_index.flat();
    let kj = j.chunk_index.flat();
    assert(e.len() == v.len());
    assert forall|k: int| 0 <= k < v.len() implies exchanged(e, i, j)[k] == v[k] by {
        if k == ki || k == kj {
            let c1 = exchanged(e, i, j)[k].unwrap().0;
            let c0 = v[k].unwrap().0;
            assert(c1 =~= c0);
        }
    }
    assert(exchanged(e, i, j) =~= v);
}

/// The cell `c` after one call of `friction(16, 16)`: each moving axis adds 16 to its
/// accumulator, and slows by one when it wraps.
pub open spec fn rub(c: Cell) -> Cell {
    let (vx, fx) = if c.velocity.x != 0 {
        friction_axis(c.velocity.x, c.friction.x, 16)
    } else {
        (c.velocity.x, c.friction.x)
    };
    let (vy, fy) = if c.velocity.y != 0 {
        friction_axis(c.velocity.y, c.friction.y, 16)
    } else {
        (c.velocity.y, c.friction.y)
    };
    Cell { velocity: CellVelocity { x: vx, y: vy }, friction: CellFriction { x: fx, y: fy }, ..c }
}

/// The cell `c` after `n` calls of `friction(16, 16)`.
pub open spec fn rubbed(c: Cell, n: nat) -> Cell
    decreases n,
{
    if n == 0 {
        c
    } else {
        rub(rubbed(c, (n - 1) as nat))
    }
}

/// Friction keeps a cell's kind, frame and gravity, and keeps a valid cell valid.
pub proof fn lemma_rubbed(c: Cell, n: nat)
    requires
        c.valid(),
    ensures
        rubbed(c, n).valid(),
        rubbed(c, n).id == c.id,
        rubbed(c, n).last_changed == c.last_changed,
        rubbed(c, n).gravity_part == c.gravity_part,
    decreases n,
{
    if n > 0 {
        lemma_rubbed(c, (n - 1) as nat);
    }
}

/// How the walk of the cell `c` from `index` over the places `p` ends, from the `k`-th place
/// on with `last` the last air cell passed: `None` when the move fails; otherwise the cell
/// it displaces (if any), the last air cell passed, and how many places were walked. Air is
/// passed over; a lighter cell is displaced; a cell that is not lighter stops the walk (the
/// move fails when no air was passed); an unloaded place fails the move.
pub open spec fn walk_end(
    v: Seq<Option<(Seq<Cell>, bool)>>,
    c: Cell,
    index: FullIndex,
    p: Seq<FullIndex>,
    k: int,
    last: FullIndex,
) -> Option<(Option<FullIndex>, FullIndex, nat)>
    decreases p.len() - k,
{
    if k < 0 || k >= p.len() {
        Some((None, last, p.len()))
    } else {
        match cell_of(v, p[k]) {
            None => None,
            Some(o) => if kind_color(o.id) == CellColor::air_color() {
                walk_end(v, c, index, p, k + 1, p[k])
            } else if kind_density(c.id) > kind_density(o.id) {
                Some((Some(p[k]), last, (k + 1) as nat))
            } else if last == index {
                None
            } else {
                Some((None, last, (k + 1) as nat))
            },
        }
    }
}

/// The cells at the world positions `s`.
pub open spec fn cells_at_points(s: Seq<(u16, u16)>) -> Seq<FullIndex> {
    s.map_values(|q: (u16, u16)| FullIndex::of_world(q.0 as int, q.1 as int))
}

/// The cells of the world that the line from `index` along the velocity `vel` passes, after
/// `index` itself.
pub open spec fn path(index: FullIndex, vel: CellVelocity) -> Seq<FullIndex> {
    cells_at_points(
        line_points(
            index.world_x() as u16,
            index.world_y() as u16,
            moved_by(index.world_x(), vel.x) as u16,
            moved_by(index.world_y(), vel.y) as u16,
        ).drop_first(),
    )
}

/// One step of a line walk whose remaining points, as cells, are the places of `p` from
/// the `k`-th on: the point reached is the `k`-th place, and the rest are the places after it.
proof fn lemma_path_step(before: LineIter, p: Seq<FullIndex>, k: int)
    requires
        before.inv(),
        !before.first,
        before.step().1 is Some,
        0 <= k <= p.len(),
        cells_at_points(before.trace()) == p.subrange(k, p.len() as int),
    ensures
        k < p.len(),
        p[k] == FullIndex::of_world(before.step().0.x0 as int, before.step().0.y0 as int),
        cells_at_points(before.step().0.trace()) == p.subrange(k + 1, p.len() as int),
{
    lemma_step(before);
    let n = before.step().0;
    assert(before.trace() == seq![(n.x0, n.y0)] + n.trace());
    let a = cells_at_points(before.trace());
    assert(a.len() == before.trace().len());
    assert(a[0] == FullIndex::of_world(n.x0 as int, n.y0 as int));
    assert(a[0] == p.subrange(k, p.len() as int)[0]);
    assert(cells_at_points(n.trace()) =~= p.subrange(k + 1, p.len() as int)) by {
        assert forall|i: int| 0 <= i < cells_at_points(n.trace()).len() implies #[trigger] cells_at_points(
            n.trace(),
        )[i] == p.subrange(k + 1, p.len() as int)[i] by {
            assert(before.trace()[i + 1] == n.trace()[i]);
            assert(a[i + 1] == p.subrange(k, p.len() as int)[i + 1]);
        }
    }
}

/// A line walk at its end has no points left, so the places of `p` are used up.
proof fn lemma_path_end(before: LineIter, p: Seq<FullIndex>, k: int)
    requires
        before.inv(),
        before.step().1 is None,
        0 <= k <= p.len(),
        cells_at_points(before.trace()) == p.subrange(k, p.len() as int),
    ensures
        k == p.len(),
{
    assert(before.trace() =~= Seq::<(u16, u16)>::empty());
    assert(cells_at_points(before.trace()).len() == 0);
}

/// What `try_swap(index, direction)` does to the world view `v`: whether the cell moved, and
/// the view after. A move whose line would leave the world, or cross from one half of the
/// `u16` range of world coordinates to the other, fails. Otherwise the cell walks the path of its velocity turned toward `direction`; when
/// the walk does not fail, the cell is slowed once per place walked and then takes the place
/// of the cell it displaced (which goes to the last air cell passed), or else of the last
/// air cell passed.
pub open spec fn try_result(v: Seq<Option<(Seq<Cell>, bool)>>, index: FullIndex, direction: Direction) -> (
    bool,
    Seq<Option<(Seq<Cell>, bool)>>,
) {
    match cell_of(v, index) {
        None => (false, v),
        Some(c) => if !move_ok(index, c.velocity.turned(direction)) {
            (false, v)
        } else {
            match walk_end(v, c, index, path(index, c.velocity.turned(direction)), 0, index) {
            None => (false, v),
            Some((t, last, n)) => {
                let w1 = with_cell(v, index, rubbed(c, n));
                (
                    true,
                    match t {
                        Some(t) => if last == index {
                            exchanged(w1, index, t)
                        } else {
                            exchanged(exchanged(w1, t, last), index, t)
                        },
                        None => exchanged(w1, index, last),
                    },
                )
            },
            }
        },
    }
}

/// The chunks whose collision shapes `try_swap(index, direction)` touches in the world view
/// `v`: those of each swap it makes.
pub open spec fn try_touch(v: Seq<Option<(Seq<Cell>, bool)>>, index: FullIndex, direction: Direction) -> Set<int> {
    match cell_of(v, index) {
        None => Set::empty(),
        Some(c) => if !move_ok(index, c.velocity.turned(direction)) {
            Set::empty()
        } else {
            match walk_end(v, c, index, path(index, c.velocity.turned(direction)), 0, index) {
                None => Set::empty(),
                Some((t, last, n)) => {
                    let w1 = with_cell(v, index, rubbed(c, n));
                    match t {
                        Some(t) => if last == index {
                            swap_touch(w1, index, t)
                        } else {
                            swap_touch(w1, t, last) + swap_touch(exchanged(w1, t, last), index, t)
                        },
                        None => swap_touch(w1, index, last),
                    }
                },
            }
        },
    }
}

impl ChunkMap {
    /// Walks the line from `index` along `vel` for the cell `c` found there, and reports how
    /// the walk ends (see `walk_end`): the cell displaced (if any), the last air cell passed,
    /// and the number of places walked; `None` when the move fails.
    fn walk(&self, index: FullIndex, c: Cell, vel: CellVelocity) -> (r: Option<(Option<FullIndex>, FullIndex, u32)>)
        requires
            self.wf(),
            self.cell_at(index) == Some(c),
            c.valid(),
            move_ok(index, vel),
            -4 <= vel.x <= 4,
            -4 <= vel.y <= 4,
        ensures
            match r {
                None => walk_end(self@, c, index, path(index, vel), 0, index) is None,
                Some((t, last, n)) => {
                    &&& walk_end(self@, c, index, path(index, vel), 0, index) == Some((t, last, n as nat))
                    &&& n <= 9
                    &&& cell_of(self@, last) is Some
                    &&& t matches Some(j) ==> cell_of(self@, j) is Some
                },
            },
    {
        proof {
            lemma_move_ok(index, vel);
            lemma_init_inv(
                index.world_x() as u16,
                index.world_y() as u16,
                moved_by(index.world_x(), vel.x) as u16,
                moved_by(index.world_y(), vel.y) as u16,
            );
        }
        let mut line = LineFullIter::new_vel(index, vel);
        let ghost init = line.line;
        proof {
            lemma_step(line.line);
        }
        let _ = line.next();
        let ghost p = path(index, vel);
        proof {
            assert(init.trace() == seq![(init.x0, init.y0)] + line.line.trace());
            assert(init.trace().drop_first() =~= line.line.trace());
            assert(p.subrange(0, p.len() as int) =~= p);
        }
        let mut last = index;
        let mut n: u32 = 0;
        let mut blocked_at: Option<FullIndex> = None;
        loop
            invariant_except_break
                line.line.inv(),
                !line.line.first,
                cells_at_points(line.line.trace()) == p.subrange(n as int, p.len() as int),
                walk_end(self@, c, index, p, 0, index) == walk_end(self@, c, index, p, n as int, last),
                blocked_at is None,
                n <= p.len(),
                0 <= line.line.measure(),
                n + line.line.measure() <= 9,
            invariant
                self.wf(),
                self.cell_at(index) == Some(c),
                c.valid(),
                p == path(index, vel),
                cell_of(self@, last) is Some,
                blocked_at matches Some(j) ==> cell_of(self@, j) is Some,
            ensures
                walk_end(self@, c, index, p, 0, index) == Some((blocked_at, last, n as nat)),
                n <= 9,
            decreases line.line.measure(),
        {
            proof {
                lemma_step(line.line);
            }
            let ghost before = line.line;
            match line.next() {
                None => {
                    proof {
                        lemma_path_end(before, p, n as int);
                    }
                    break;
                },
                Some((_, swap_index)) => {
                    let ghost k = n as int;
                    proof {
                        lemma_path_step(before, p, k);
                    }
                    n = n + 1;
                    match self.get(swap_index) {
                        Some(new) => {
                            let other = *new;
                            proof {
                                lemma_cell_valid(*self, swap_index);
                            }
                            if other.is_air() {
                                last = swap_index;
                            } else if c.can_move(&other) {
                                blocked_at = Some(swap_index);
                                break;
                            } else if last == index {
                                return None;
                            } else {
                                break;
                            }
                        },
                        None => {
                            return None;
                        },
                    }
                },
            }
        }
        Some((blocked_at, last, n))
    }

    /// Tries to move the cell at `index` along its velocity turned toward `direction`: it
    /// walks the line cell by cell, passing over air, until it finds a cell it may displace
    /// (it then takes that cell's place, the displaced cell going to the last air cell
    /// passed), a cell it may not displace (it stops at the last air cell passed, or fails if
    /// there was none), an unloaded chunk (it fails), or the end of the line (it stops at the
    /// last air cell passed). Each cell walked slows it by friction. A move whose line would
    /// leave the world, or cross from one half of the `u16` range of world coordinates to the
    /// other (where the line's signed differences overflow), fails and changes nothing. The
    /// collision shapes of the chunks whose solid cells a swap changes are marked to be rebuilt.
    pub fn try_swap(&mut self, voxel_world: &mut VoxelChunkMap, index: FullIndex, direction: Direction) -> (r: bool)
        requires
            old(self).consistent(old(voxel_world)),
        ensures
            final(self).consistent(final(voxel_world)),
            (r, final(self)@) == try_result(old(self)@, index, direction),
            same_loaded(old(self)@, final(self)@),
            shapes_touched(
                old(voxel_world).chunks.matrix@,
                final(voxel_world).chunks.matrix@,
                try_touch(old(self)@, index, direction),
            ),
            !r ==> *final(voxel_world) == *old(voxel_world),
    {
        let ghost w0 = *self;
        let ghost vm0 = voxel_world.chunks.matrix@;
        proof {
            lemma_wf_view(*self);
            lemma_touched_none(vm0);
        }
        let c = match self.get(index) {
            Some(c) => *c,
            None => {
                proof {
                    assert(try_touch(w0@, index, direction) =~= Set::<int>::empty());
                }
                return false;
            },
        };
        proof {
            lemma_cell_valid(*self, index);
        }
        let vel = c.velocity.to_dir(direction);
        if !move_fits(index, vel) {
            proof {
                assert(try_touch(w0@, index, direction) =~= Set::<int>::empty());
            }
            return false;
        }
        let (blocked_at, last, n) = match self.walk(index, c, vel) {
            Some(e) => e,
            None => {
                proof {
                    assert(try_touch(w0@, index, direction) =~= Set::<int>::empty());
                }
                return false;
            },
        };
        let mut slowed_cell = c;
        let mut t: u32 = 0;
        while t < n
            invariant
                t <= n,
                slowed_cell == rubbed(c, t as nat),
            decreases n - t,
        {
            let ghost b = slowed_cell;
            slowed_cell.friction(16, 16);
            proof {
                assert(slowed_cell == rub(b));
            }
            t = t + 1;
        }
        proof {
            lemma_rubbed(c, n as nat);
        }
        self.replace_cell(voxel_world, index, slowed_cell);
        let ghost w1 = self@;
        proof {
            lemma_wf_view(*self);
            lemma_with_cell_loaded(w0@, index, slowed_cell, last);
            lemma_with_cell_loaded(w0@, index, slowed_cell, index);
            assert(w1 == with_cell(w0@, index, rubbed(c, n as nat)));
        }
        match blocked_at {
            Some(swap_index) => {
                proof {
                    lemma_with_cell_loaded(w0@, index, slowed_cell, swap_index);
                }
                if last == index {
                    self.swap(voxel_world, index, swap_index);
                    proof {
                        assert(try_touch(w0@, index, direction) == swap_touch(w1, index, swap_index));
                    }
                } else {
                    self.swap(voxel_world, swap_index, last);
                    let ghost w2 = self@;
                    let ghost vm2 = voxel_world.chunks.matrix@;
                    proof {
                        assert(cell_of(w2, index) is Some && cell_of(w2, swap_index) is Some) by {
                            lemma_flatten_roundtrip(index.chunk_index, 0);
                            lemma_flatten_roundtrip(swap_index.chunk_index, 0);
                            lemma_flatten_roundtrip(last.chunk_index, 0);
                        }
                    }
                    self.swap(voxel_world, index, swap_index);
                    proof {
                        lemma_touched_trans(
                            vm0,
                            vm2,
                            voxel_world.chunks.matrix@,
                            swap_touch(w1, swap_index, last),
                            swap_touch(w2, index, swap_index),
                        );
                        assert(try_touch(w0@, index, direction) == swap_touch(w1, swap_index, last) + swap_touch(
                            w2,
                            index,
                            swap_index,
                        ));
                    }
                }
            },
            None => {
                self.swap(voxel_world, index, last);
                proof {
                    assert(try_touch(w0@, index, direction) == swap_touch(w1, index, last));
                }
            },
        }
        proof {
            lemma_same_loaded_trans(w0@, w1, self@);
        }
        true
    }
}

#[verifier::external_type_specification]
#[verifier::external_body]
pub struct ExSmallRng(SmallRng);

#[verifier::external_type_specification]
#[verifier::external_body]
pub struct ExBernoulli(Bernoulli);

#[verifier::external_type_specification]
#[verifier::external_body]
pub struct ExInstant(Instant);

/// A small generator seeded from the system: calls `rand::make_rng::<SmallRng>()`.
/// Nothing is claimed of the seed.
#[verifier::external_body]
fn seeded_small_rng() -> SmallRng {
    rand::make_rng()
}

/// A fair coin: calls `Bernoulli::from_ratio(1, 2)`, which is `Ok` since 1 <= 2 and 2 != 0.
#[verifier::external_body]
fn fair_coin() -> Bernoulli {
    Bernoulli::from_ratio(1, 2).unwrap()
}

/// The current time: calls `Instant::now()`.
#[verifier::external_body]
pub(crate) fn now() -> Instant {
    Instant::now()
}

/// The time passed since `start`: calls `Instant::elapsed`. It depends on the clock, so
/// nothing is claimed of it.
#[verifier::external_body]
pub(crate) fn elapsed(start: &Instant) -> Duration {
    start.elapsed()
}

/// Whole microseconds of `d`: calls `Duration::as_micros`. Nothing is claimed of the value.
#[verifier::external_body]
pub(crate) fn as_micros(d: &Duration) -> u128 {
    d.as_micros()
}

/// The random choices of the simulation: a generator and a fair coin.
pub struct WorldRand {
    pub rng: SmallRng,
    pub half: Bernoulli,
}

impl Default for WorldRand {
    fn default() -> Self {
        WorldRand { rng: seeded_small_rng(), half: fair_coin() }
    }
}

/// A toss of `coin` with the generator `rng`: calls `RngExt::sample`. Chance decides;
/// nothing is claimed of the result.
#[verifier::external_body]
fn sample_coin(rng: &mut SmallRng, coin: &Bernoulli) -> bool {
    rng.sample(*coin)
}

/// A draw from `low..high` with the generator `rng`: calls `RngExt::sample` with
/// `Uniform::new(low, high)`, which is `Ok` when `low < high`. Chance decides which value;
/// claimed: it lies in `low..high`, the range that `Uniform::new` samples from.
#[verifier::external_body]
pub(crate) fn sample_range(rng: &mut SmallRng, low: usize, high: usize) -> (r: usize)
    requires
        low < high,
    ensures
        low <= r < high,
{
    rng.sample(Uniform::new(low, high).unwrap())
}

impl WorldRand {
    /// A toss of the fair coin.
    pub fn half(&mut self) -> bool {
        sample_coin(&mut self.rng, &self.half)
    }

    /// A draw for gases, uniform over `0..6`.
    pub fn gas(&mut self) -> (r: usize)
        ensures
            r < 6,
    {
        sample_range(&mut self.rng, 0, 6)
    }
}

/// The directions a cell of kind `kind` tries, in order, given the coin toss (liquids and
/// granular cells) or the draw (gases).
pub open spec fn direction_list(kind: CellType, coin: bool, roll: usize) -> Seq<Direction> {
    match kind {
        CellType::Liquid => if coin {
            seq![Direction::Down, Direction::DownLeft, Direction::DownRight, Direction::Left, Direction::Right]
        } else {
            seq![Direction::Down, Direction::DownRight, Direction::DownLeft, Direction::Right, Direction::Left]
        },
        CellType::Granular => if coin {
            seq![Direction::Down, Direction::DownLeft, Direction::DownRight]
        } else {
            seq![Direction::Down, Direction::DownRight, Direction::DownLeft]
        },
        CellType::Gas => if roll == 0 {
            seq![Direction::UpLeft]
        } else if roll == 1 {
            seq![Direction::Up]
        } else if roll == 2 {
            seq![Direction::UpRight]
        } else if roll == 3 {
            seq![Direction::Left]
        } else if roll == 4 {
            seq![Direction::Right]
        } else {
            Seq::empty()
        },
        _ => Seq::empty(),
    }
}

/// How far one step in direction `d` goes along each axis, up and right counted positive.
pub open spec fn direction_step(d: Direction) -> (int, int) {
    match d {
        Direction::UpLeft => (-1, 1),
        Direction::Up => (0, 1),
        Direction::UpRight => (1, 1),
        Direction::Left => (-1, 0),
        Direction::Right => (1, 0),
        Direction::DownLeft => (-1, -1),
        Direction::Down => (0, -1),
        Direction::DownRight => (1, -1),
    }
}

/// The directions a kind tries. A gas rises or stays level: the draws 0 to 4 each give one
/// direction that does not go down, no two the same (so the five such directions, one per
/// draw), and any other draw gives none. Liquids and granular cells try straight down first
/// and never rise: granular cells then try the two diagonals down, liquids the two diagonals
/// down and then the two level sides; the two sides of the coin give mirror images.
pub proof fn lemma_directions_by_kind(coin: bool, roll: usize)
    ensures
        forall|j: int|
            0 <= j < direction_list(CellType::Gas, coin, roll).len() ==> direction_step(
                #[trigger] direction_list(CellType::Gas, coin, roll)[j],
            ).1 >= 0,
        roll < 5 ==> direction_list(CellType::Gas, coin, roll).len() == 1,
        roll >= 5 ==> direction_list(CellType::Gas, coin, roll).len() == 0,
        forall|r1: usize, r2: usize|
            r1 < 5 && r2 < 5 && r1 != r2 ==> #[trigger] direction_list(CellType::Gas, coin, r1)[0]
                != #[trigger] direction_list(CellType::Gas, coin, r2)[0],
        direction_list(CellType::Liquid, coin, roll).len() == 5,
        direction_list(CellType::Liquid, coin, roll)[0] == Direction::Down,
        direction_step(direction_list(CellType::Liquid, coin, roll)[1]).1 == -1,
        direction_step(direction_list(CellType::Liquid, coin, roll)[2]).1 == -1,
        direction_step(direction_list(CellType::Liquid, coin, roll)[3]).1 == 0,
        direction_step(direction_list(CellType::Liquid, coin, roll)[4]).1 == 0,
        direction_step(direction_list(CellType::Liquid, coin, roll)[1]).0 == -direction_step(
            direction_list(CellType::Liquid, coin, roll)[2],
        ).0,
        direction_step(direction_list(CellType::Liquid, coin, roll)[3]).0 == -direction_step(
            direction_list(CellType::Liquid, coin, roll)[4],
        ).0,
        direction_list(CellType::Granular, coin, roll).len() == 3,
        direction_list(CellType::Granular, coin, roll)[0] == Direction::Down,
        direction_step(direction_list(CellType::Granular, coin, roll)[1]).1 == -1,
        direction_step(direction_list(CellType::Granular, coin, roll)[2]).1 == -1,
        direction_step(direction_list(CellType::Granular, coin, roll)[1]).0 == -direction_step(
            direction_list(CellType::Granular, coin, roll)[2],
        ).0,
        forall|j: int|
            0 <= j < 5 ==> direction_step(#[trigger] direction_list(CellType::Liquid, true, roll)[j]).0
                == -direction_step(direction_list(CellType::Liquid, false, roll)[j]).0,
        forall|j: int|
            0 <= j < 3 ==> direction_step(#[trigger] direction_list(CellType::Granular, true, roll)[j]).0
                == -direction_step(direction_list(CellType::Granular, false, roll)[j]).0,
        forall|k: CellType|
            k != CellType::Liquid && k != CellType::Granular && k != CellType::Gas ==> #[trigger] direction_list(
                k,
                coin,
                roll,
            ).len() == 0,
{
    assert forall|j: int|
        0 <= j < 5 implies direction_step(#[trigger] direction_list(CellType::Liquid, true, roll)[j]).0
        == -direction_step(direction_list(CellType::Liquid, false, roll)[j]).0 by {
        if j == 0 {
        } else if j == 1 {
        } else if j == 2 {
        } else if j == 3 {
        } else {
        }
    }
    assert forall|j: int|
        0 <= j < 3 implies direction_step(#[trigger] direction_list(CellType::Granular, true, roll)[j]).0
        == -direction_step(direction_list(CellType::Granular, false, roll)[j]).0 by {
        if j == 0 {
        } else if j == 1 {
        } else {
        }
    }
}

/// The directions a cell of kind `kind` tries, in order: liquids fall, then slide down
/// diagonally, then sideways; granular cells fall, then slide down diagonally; the coin picks
/// which side comes first. Gases go the way the draw picks (up-left, up, up-right, left,
/// right), or stay for any other draw.
pub fn directions(kind: CellType, coin: bool, roll: usize) -> (r: Vec<Direction>)
    ensures
        r@ == direction_list(kind, coin, roll),
{
    match kind {
        CellType::Liquid => if coin {
            vec![Direction::Down, Direction::DownLeft, Direction::DownRight, Direction::Left, Direction::Right]
        } else {
            vec![Direction::Down, Direction::DownRight, Direction::DownLeft, Direction::Right, Direction::Left]
        },
        CellType::Granular => if coin {
            vec![Direction::Down, Direction::DownLeft, Direction::DownRight]
        } else {
            vec![Direction::Down, Direction::DownRight, Direction::DownLeft]
        },
        CellType::Gas => if roll == 0 {
            vec![Direction::UpLeft]
        } else if roll == 1 {
            vec![Direction::Up]
        } else if roll == 2 {
            vec![Direction::UpRight]
        } else if roll == 3 {
            vec![Direction::Left]
        } else if roll == 4 {
            vec![Direction::Right]
        } else {
            Vec::new()
        },
        _ => Vec::new(),
    }
}

/// The cell after it is marked as handled in frame `frame`, and pulled down by gravity when
/// it is a liquid, a granular cell or a gas.
pub open spec fn prepared(c: Cell, frame: u8) -> Cell {
    let c0 = Cell { last_changed: frame, ..c };
    if c.kind() == CellType::Liquid || c.kind() == CellType::Granular || c.kind() == CellType::Gas {
        c0.pulled(64)
    } else {
        c0
    }
}

/// What `simulate_cell(index)` does to the world view `v` in frame `frame`, given the coin
/// toss and the draw it makes: a cell not yet advanced in this frame is marked and pulled
/// by gravity (liquids, granular cells and gases); such a cell, when it moves, then tries the
/// directions of its kind.
pub open spec fn cell_step(v: Seq<Option<(Seq<Cell>, bool)>>, index: FullIndex, frame: u8, coin: bool, roll: usize) -> Seq<
    Option<(Seq<Cell>, bool)>,
> {
    match cell_of(v, index) {
        None => v,
        Some(c) => if c.last_changed == frame {
            v
        } else {
            let c1 = prepared(c, frame);
            let w1 = with_cell(v, index, c1);
            if (c.kind() == CellType::Liquid || c.kind() == CellType::Granular || c.kind() == CellType::Gas)
                && !(c1.velocity.x == 0 && c1.velocity.y == 0) {
                tries(w1, index, direction_list(c.kind(), coin, roll))
            } else {
                w1
            }
        },
    }
}

/// The cells of the chunk at `chunk` in the order in which `simulate_chunk` advances them in
/// frame `frame`: rows from the bottom; a row is walked from right to left when exactly one
/// of its index and the frame is even, and from left to right otherwise.
pub open spec fn chunk_order(chunk: MatrixIndex, frame: u8) -> Seq<FullIndex> {
    Seq::new(
        65536,
        |k: int|
            {
                let y = k / 256;
                let j = k % 256;
                let x = if (y % 2 == 0) != (frame % 2 == 0) {
                    255 - j
                } else {
                    j
                };
                FullIndex { cell_index: MatrixIndex { x: x as u8, y: y as u8 }, chunk_index: chunk }
            },
    )
}

/// The world view after advancing the cells `cells` in order, the `i`-th with the coin toss
/// and draw `choices[i]`.
pub open spec fn cell_steps(
    v: Seq<Option<(Seq<Cell>, bool)>>,
    cells: Seq<FullIndex>,
    frame: u8,
    choices: Seq<(bool, usize)>,
) -> Seq<Option<(Seq<Cell>, bool)>>
    decreases cells.len(),
{
    if cells.len() == 0 {
        v
    } else {
        cell_step(
            cell_steps(v, cells.drop_last(), frame, choices.drop_last()),
            cells.last(),
            frame,
            choices.last().0,
            choices.last().1,
        )
    }
}

/// What trying the directions `l` in order does to the world view `v`: the first direction
/// in which the cell at `index` moves decides the view; when there is none, nothing changes.
pub open spec fn tries(v: Seq<Option<(Seq<Cell>, bool)>>, index: FullIndex, l: Seq<Direction>) -> Seq<
    Option<(Seq<Cell>, bool)>,
>
    decreases l.len(),
{
    if l.len() == 0 {
        v
    } else if try_result(v, index, l[0]).0 {
        try_result(v, index, l[0]).1
    } else {
        tries(v, index, l.drop_first())
    }
}

/// The chunks whose collision shapes trying the directions `l` in order touches: those of the
/// first direction in which the cell at `index` moves; none when it moves in none.
pub open spec fn tries_touch(v: Seq<Option<(Seq<Cell>, bool)>>, index: FullIndex, l: Seq<Direction>) -> Set<int>
    decreases l.len(),
{
    if l.len() == 0 {
        Set::empty()
    } else if try_result(v, index, l[0]).0 {
        try_touch(v, index, l[0])
    } else {
        tries_touch(v, index, l.drop_first())
    }
}

/// The cell at `index` moves in one of the directions `l`.
pub open spec fn tries_move(v: Seq<Option<(Seq<Cell>, bool)>>, index: FullIndex, l: Seq<Direction>) -> bool
    decreases l.len(),
{
    if l.len() == 0 {
        false
    } else {
        try_result(v, index, l[0]).0 || tries_move(v, index, l.drop_first())
    }
}

/// The cell at `index` has its turn in frame `frame`, is of a kind that moves, and still moves
/// after gravity: it draws from the generator and tries its directions.
pub open spec fn cell_draws(v: Seq<Option<(Seq<Cell>, bool)>>, index: FullIndex, frame: u8) -> bool {
    match cell_of(v, index) {
        None => false,
        Some(c) => {
            &&& c.last_changed != frame
            &&& c.kind() == CellType::Liquid || c.kind() == CellType::Granular || c.kind() == CellType::Gas
            &&& !(prepared(c, frame).velocity.x == 0 && prepared(c, frame).velocity.y == 0)
        },
    }
}

/// The chunks whose collision shapes `simulate_cell(index)` touches in the world view `v`,
/// given the coin toss and the draw: those of the direction in which the cell moves.
pub open spec fn cell_touch(v: Seq<Option<(Seq<Cell>, bool)>>, index: FullIndex, frame: u8, coin: bool, roll: usize) -> Set<int> {
    if cell_draws(v, index, frame) {
        let c = cell_of(v, index).unwrap();
        tries_touch(with_cell(v, index, prepared(c, frame)), index, direction_list(c.kind(), coin, roll))
    } else {
        Set::empty()
    }
}

impl ChunkMap {
    /// Tries the directions of `check` in order, and stops at the first in which the cell at
    /// `index` moves.
    pub fn swap_from_list(&mut self, voxel_world: &mut VoxelChunkMap, index: FullIndex, check: &[Direction])
        requires
            old(self).consistent(old(voxel_world)),
        ensures
            final(self).consistent(final(voxel_world)),
            same_loaded(old(self)@, final(self)@),
            final(self)@ == tries(old(self)@, index, check@),
            shapes_touched(
                old(voxel_world).chunks.matrix@,
                final(voxel_world).chunks.matrix@,
                tries_touch(old(self)@, index, check@),
            ),
            !tries_move(old(self)@, index, check@) ==> *final(voxel_world) == *old(voxel_world),
    {
        let ghost w0 = self@;
        proof {
            lemma_wf_view(*self);
            assert(check@.subrange(0, check@.len() as int) =~= check@);
        }
        let mut i: usize = 0;
        while i < check.len()
            invariant
                self.consistent(voxel_world),
                self@ == w0,
                w0 == old(self)@,
                *voxel_world == *old(voxel_world),
                w0.len() == 65536,
                i <= check@.len(),
                tries(w0, index, check@) == tries(w0, index, check@.subrange(i as int, check@.len() as int)),
                tries_touch(w0, index, check@) == tries_touch(w0, index, check@.subrange(i as int, check@.len() as int)),
                tries_move(w0, index, check@) == tries_move(w0, index, check@.subrange(i as int, check@.len() as int)),
                decreases check@.len() - i,
        {
            let ghost rest = check@.subrange(i as int, check@.len() as int);
            proof {
                assert(rest[0] == check@[i as int]);
                assert(rest.drop_first() =~= check@.subrange(i + 1, check@.len() as int));
            }
            if self.try_swap(voxel_world, index, check[i]) {
                return;
            }
            i = i + 1;
        }
        proof {
            assert(check@.subrange(i as int, check@.len() as int) =~= Seq::<Direction>::empty());
            lemma_touched_none(voxel_world.chunks.matrix@);
        }
    }

    /// Advances the cell at `index` by one frame, unless it was already advanced in frame
    /// `frame`: liquids, granular cells and gases fall under gravity and, while moving, try
    /// the directions of their kind (picked with `rand`).
    pub fn simulate_cell(&mut self, voxel_world: &mut VoxelChunkMap, index: FullIndex, rand: &mut WorldRand, frame: u8)
        requires
            old(self).consistent(old(voxel_world)),
        ensures
            final(self).consistent(final(voxel_world)),
            same_loaded(old(self)@, final(self)@),
            !cell_draws(old(self)@, index, frame) ==> *final(rand) == *old(rand) && *final(voxel_world)
                == *old(voxel_world),
            exists|coin: bool, roll: usize|
                {
                    &&& roll < 6
                    &&& final(self)@ == #[trigger] cell_step(old(self)@, index, frame, coin, roll)
                    &&& shapes_touched(
                        old(voxel_world).chunks.matrix@,
                        final(voxel_world).chunks.matrix@,
                        cell_touch(old(self)@, index, frame, coin, roll),
                    )
                },
    {
        proof {
            lemma_touched_none(voxel_world.chunks.matrix@);
        }
        let c = match self.get(index) {
            Some(c) => *c,
            None => {
                proof {
                    assert(self@ == cell_step(old(self)@, index, frame, false, 0));
                }
                return;
            },
        };
        proof {
            lemma_cell_valid(*self, index);
        }
        if c.last_changed == frame {
            proof {
                assert(self@ == cell_step(old(self)@, index, frame, false, 0));
            }
            return;
        }
        let mut c1 = c;
        c1.last_changed = frame;
        let kind = c1.cell_type();
        match kind {
            CellType::Liquid | CellType::Granular | CellType::Gas => {
                c1.gravity(64);
                self.replace_cell(voxel_world, index, c1);
                if c1.velocity.is_zero() {
                    proof {
                        assert(self@ == cell_step(old(self)@, index, frame, false, 0));
                    }
                    return;
                }
                let coin = match kind {
                    CellType::Gas => false,
                    _ => rand.half(),
                };
                let roll = match kind {
                    CellType::Gas => rand.gas(),
                    _ => 0,
                };
                let check = directions(kind, coin, roll);
                proof {
                    lemma_with_cell_loaded(old(self)@, index, c1, index);
                }
                let ghost w1 = self@;
                self.swap_from_list(voxel_world, index, check.as_slice());
                proof {
                    assert(self@ == tries(w1, index, direction_list(c.kind(), coin, roll)));
                    assert(self@ == cell_step(old(self)@, index, frame, coin, roll));
                    lemma_same_loaded_trans(old(self)@, w1, self@);
                }
            },
            _ => {
                self.replace_cell(voxel_world, index, c1);
                proof {
                    assert(self@ == cell_step(old(self)@, index, frame, false, 0));
                }
            },
        }
    }

    /// Advances every cell of the chunk at `chunk_index` by one frame, row by row from the
    /// bottom; the direction in which a row is walked alternates with the row and the frame.
    pub fn simulate_chunk(&mut self, voxel_world: &mut VoxelChunkMap, chunk_index: MatrixIndex, rand: &mut WorldRand, frame: u8)
        requires
            old(self).consistent(old(voxel_world)),
        ensures
            final(self).consistent(final(voxel_world)),
            same_loaded(old(self)@, final(self)@),
            shapes_marked(old(voxel_world).chunks.matrix@, final(voxel_world).chunks.matrix@),
            exists|choices: Seq<(bool, usize)>|
                {
                    &&& choices.len() == 65536
                    &&& forall|i: int| 0 <= i < 65536 ==> (#[trigger] choices[i]).1 < 6
                    &&& final(self)@ == #[trigger] cell_steps(
                        old(self)@,
                        chunk_order(chunk_index, frame),
                        frame,
                        choices,
                    )
                },
    {
        let ghost w0 = self@;
        let ghost vm0 = voxel_world.chunks.matrix@;
        let ghost order = chunk_order(chunk_index, frame);
        let ghost mut choices: Seq<(bool, usize)> = Seq::empty();
        proof {
            lemma_wf_view(*self);
            assert(order.take(0) =~= Seq::<FullIndex>::empty());
        }
        let mut y: u16 = 0;
        while y <= 255
            invariant
                self.consistent(voxel_world),
                same_loaded(w0, self@),
                shapes_marked(vm0, voxel_world.chunks.matrix@),
                w0.len() == 65536,
                    order == chunk_order(chunk_index, frame),
                y <= 256,
                choices.len() == 256 * y,
                forall|i: int| 0 <= i < choices.len() ==> (#[trigger] choices[i]).1 < 6,
                self@ == cell_steps(w0, order.take(256 * y), frame, choices),
            decreases 256 - y,
        {
            let yy = y as u8;
            let reversed = yy.is_multiple_of(2) ^ frame.is_multiple_of(2);
            let mut j: u16 = 0;
            while j <= 255
                invariant
                    self.consistent(voxel_world),
                    same_loaded(w0, self@),
                    shapes_marked(vm0, voxel_world.chunks.matrix@),
                    w0.len() == 65536,
                            order == chunk_order(chunk_index, frame),
                    y <= 255,
                    yy == y,
                    reversed == ((yy % 2 == 0) != (frame % 2 == 0)),
                    j <= 256,
                    choices.len() == 256 * y + j,
                    forall|i: int| 0 <= i < choices.len() ==> (#[trigger] choices[i]).1 < 6,
                    self@ == cell_steps(w0, order.take(256 * y + j), frame, choices),
                decreases 256 - j,
            {
                let x: u16 = if reversed {
                    255 - j
                } else {
                    j
                };
                let index = FullIndex { chunk_index, cell_index: MatrixIndex { x: x as u8, y: yy } };
                let ghost k = 256 * y + j;
                proof {
                    assert(k / 256 == y && k % 256 == j) by (nonlinear_arith)
                        requires
                            k == 256 * y + j,
                            0 <= j < 256,
                            0 <= y,
                    ;
                    assert(order[k] == index);
                }
                let ghost v = self@;
                let ghost vm = voxel_world.chunks.matrix@;
                self.simulate_cell(voxel_world, index, rand, frame);
                proof {
                    let (cc, rr) = choose|coin: bool, roll: usize|
                        {
                            &&& roll < 6
                            &&& self@ == #[trigger] cell_step(v, index, frame, coin, roll)
                            &&& shapes_touched(vm, voxel_world.chunks.matrix@, cell_touch(v, index, frame, coin, roll))
                        };
                    lemma_touched_marked(vm, voxel_world.chunks.matrix@, cell_touch(v, index, frame, cc, rr));
                    lemma_marked_trans(vm0, vm, voxel_world.chunks.matrix@);
                    let old_choices = choices;
                    choices = choices.push((cc, rr));
                    assert(order.take(k + 1).drop_last() =~= order.take(k));
                    assert(order.take(k + 1).last() == order[k]);
                    assert(choices.drop_last() =~= old_choices);
                    lemma_same_loaded_trans(w0, v, self@);
                }
                j = j + 1;
            }
            y = y + 1;
        }
        proof {
            assert(order.take(65536) =~= order);
        }
    }
}

/// The time, in microseconds, after which a frame stops advancing further chunks.
pub const TIME_PER_CHUNK: u128 = 2048;

/// The chunk at `m` lies in the rectangle that `simulate` walks: the stored bounds `lo` and
/// `hi` with the two coordinates exchanged.
pub open spec fn visited(m: MatrixIndex, lo: MatrixIndex, hi: MatrixIndex) -> bool {
    lo.y <= m.x <= hi.y && lo.x <= m.y <= hi.x
}

/// Every chunk loaded in `a` outside the walked rectangle is loaded in `b` with the same
/// skip mark.
pub open spec fn marks_kept_outside(
    a: Seq<Option<(Seq<Cell>, bool)>>,
    b: Seq<Option<(Seq<Cell>, bool)>>,
    lo: MatrixIndex,
    hi: MatrixIndex,
) -> bool {
    forall|m: MatrixIndex|
        #[trigger] a[m.flat()] is Some && !visited(m, lo, hi) ==> b[m.flat()] is Some && b[m.flat()].unwrap().1
            == a[m.flat()].unwrap().1
}

/// The chunk that `simulate` takes at the position `m` of its walk: the walk runs over the
/// box with the two coordinates exchanged.
pub open spec fn transposed(m: MatrixIndex) -> MatrixIndex {
    MatrixIndex { x: m.y, y: m.x }
}

/// What the turn of the chunk at `m` does to the world view `v` when the clock reads `micros`
/// microseconds since the frame began (see `simulate_scheduled`): with time left (a reading
/// below `TIME_PER_CHUNK`), a loaded chunk not marked is marked and advanced with the coin
/// tosses and draws `choices`, and a marked one is left alone; without time left, it is
/// unmarked.
pub open spec fn scheduled_turn(
    v: Seq<Option<(Seq<Cell>, bool)>>,
    m: MatrixIndex,
    frame: u8,
    micros: u128,
    choices: Seq<(bool, usize)>,
) -> Seq<Option<(Seq<Cell>, bool)>> {
    match v[m.flat()] {
        None => v,
        Some((cells, skip)) => if !(micros < TIME_PER_CHUNK) {
            v.update(m.flat(), Some((cells, false)))
        } else if skip {
            v
        } else {
            cell_steps(v.update(m.flat(), Some((cells, true))), chunk_order(m, frame), frame, choices)
        },
    }
}

/// The world view after the turns of the chunks at the walk positions `ps`, in order, the
/// `i`-th taken when the clock read `readings[i]` and advanced with `choices[i]`.
pub open spec fn scheduled_steps(
    v: Seq<Option<(Seq<Cell>, bool)>>,
    ps: Seq<MatrixIndex>,
    frame: u8,
    readings: Seq<u128>,
    choices: Seq<Seq<(bool, usize)>>,
) -> Seq<Option<(Seq<Cell>, bool)>>
    decreases ps.len(),
{
    if ps.len() == 0 {
        v
    } else {
        scheduled_turn(
            scheduled_steps(v, ps.drop_last(), frame, readings.drop_last(), choices.drop_last()),
            transposed(ps.last()),
            frame,
            readings.last(),
            choices.last(),
        )
    }
}

/// Some loaded chunk of `v` at the walk positions `ps` had its turn without time left: the
/// clock read `TIME_PER_CHUNK` microseconds or more at that turn (`readings`).
pub open spec fn short_of_time(v: Seq<Option<(Seq<Cell>, bool)>>, ps: Seq<MatrixIndex>, readings: Seq<u128>) -> bool
    decreases ps.len(),
{
    if ps.len() == 0 {
        false
    } else {
        short_of_time(v, ps.drop_last(), readings.drop_last()) || (!(readings.last() < TIME_PER_CHUNK) && v[transposed(
            ps.last(),
        ).flat()] is Some)
    }
}

/// The world view `v` with the marks of the loaded chunks at the walk positions `ps` cleared.
pub open spec fn unmarked_at(v: Seq<Option<(Seq<Cell>, bool)>>, ps: Seq<MatrixIndex>) -> Seq<
    Option<(Seq<Cell>, bool)>,
>
    decreases ps.len(),
{
    if ps.len() == 0 {
        v
    } else {
        let w = unmarked_at(v, ps.drop_last());
        let k = transposed(ps.last()).flat();
        match w[k] {
            Some((cells, _)) => w.update(k, Some((cells, false))),
            None => w,
        }
    }
}

/// Each turn has a coin toss and a draw (below 6) for each cell of its chunk.
pub open spec fn turn_choices_ok(choices: Seq<Seq<(bool, usize)>>) -> bool {
    &&& forall|i: int| 0 <= i < choices.len() ==> (#[trigger] choices[i]).len() == 65536
    &&& forall|i: int, j: int| 0 <= i < choices.len() && 0 <= j < 65536 ==> (#[trigger] choices[i][j]).1 < 6
}

/// What `simulate` does to the world view `v` whose chunks lie in the box from `lo` to `hi`,
/// given what the clock read at each turn (`readings`, in microseconds since the frame began)
/// and the coin tosses and draws of each
/// turn (`choices`): the turns of the walk positions, in order; then, when no loaded chunk had
/// its turn without time left, every mark of the walked chunks is cleared.
pub open spec fn world_frame(
    v: Seq<Option<(Seq<Cell>, bool)>>,
    lo: MatrixIndex,
    hi: MatrixIndex,
    frame: u8,
    readings: Seq<u128>,
    choices: Seq<Seq<(bool, usize)>>,
) -> Seq<Option<(Seq<Cell>, bool)>> {
    let all = rows_from(lo, hi, lo.y as int);
    let w = scheduled_steps(v, all, frame, readings, choices);
    if short_of_time(v, all, readings) {
        w
    } else {
        unmarked_at(w, all)
    }
}

impl ChunkMap {
    /// Sets whether the chunk at `index` is to be skipped, if it is loaded, and gives back the
    /// mark it had.
    fn set_skip(&mut self, voxel_world: &VoxelChunkMap, index: MatrixIndex, skip: bool) -> (r: Option<bool>)
        requires
            old(self).consistent(voxel_world),
        ensures
            final(self).consistent(voxel_world),
            match old(self)@[index.flat()] {
                Some((cells, s)) => r == Some(s) && final(self)@ == old(self)@.update(
                    index.flat(),
                    Some((cells, skip)),
                ),
                None => r is None && final(self)@ == old(self)@,
            },
    {
        let ghost w0 = *self;
        let ghost k = index.flat();
        proof {
            lemma_flatten_roundtrip(index, 0);
            if self.chunks.matrix@[k] is Some {
                assert(filled(self.chunks.matrix@, k));
            }
        }
        let r = match self.chunks.get_mut(index) {
            Some(c) => {
                let was = c.skip_simulation;
                c.skip_simulation = skip;
                Some(was)
            },
            None => None,
        };
        proof {
            if w0@[k] is Some {
                assert(self@ =~= w0@.update(k, Some((w0@[k].unwrap().0, skip))));
            } else {
                assert(self@ =~= w0@);
            }
            assert forall|j: int| 0 <= j < 65536 && #[trigger] self@[j] is Some implies cells_ok(
                self@[j].unwrap().0,
            ) by {
                assert(filled(w0.chunks.matrix@, j));
            }
            lemma_wf_from_view(w0, *self);
        }
        r
    }

    /// The turn of the chunk at `chunk_index` in a frame, when the clock reads `micros`
    /// microseconds since the frame began. Time is left while the reading is below
    /// `TIME_PER_CHUNK`: then a chunk not marked to be skipped is marked and advanced by one
    /// frame, and a marked one is left alone; without time left, the chunk is unmarked and the
    /// frame is reported short of time. An empty place is passed over.
    pub fn simulate_scheduled(
        &mut self,
        voxel_world: &mut VoxelChunkMap,
        chunk_index: MatrixIndex,
        rand: &mut WorldRand,
        frame: u8,
        micros: u128,
    ) -> (need_time: bool)
        requires
            old(self).consistent(old(voxel_world)),
        ensures
            final(self).consistent(final(voxel_world)),
            same_chunks(old(self)@, final(self)@),
            shapes_marked(old(voxel_world).chunks.matrix@, final(voxel_world).chunks.matrix@),
            !(micros < TIME_PER_CHUNK && old(self)@[chunk_index.flat()] is Some
                && !old(self)@[chunk_index.flat()].unwrap().1)
                ==> *final(voxel_world) == *old(voxel_world) && *final(rand) == *old(rand),
            need_time == (!(micros < TIME_PER_CHUNK) && old(self)@[chunk_index.flat()] is Some),
            match old(self)@[chunk_index.flat()] {
                None => final(self)@ == old(self)@,
                Some((cells, skip)) => if !(micros < TIME_PER_CHUNK) {
                    final(self)@ == old(self)@.update(chunk_index.flat(), Some((cells, false)))
                } else if skip {
                    final(self)@ == old(self)@
                } else {
                    &&& same_loaded(old(self)@.update(chunk_index.flat(), Some((cells, true))), final(self)@)
                    &&& exists|choices: Seq<(bool, usize)>|
                        {
                            &&& choices.len() == 65536
                            &&& forall|i: int| 0 <= i < 65536 ==> (#[trigger] choices[i]).1 < 6
                            &&& final(self)@ == #[trigger] cell_steps(
                                old(self)@.update(chunk_index.flat(), Some((cells, true))),
                                chunk_order(chunk_index, frame),
                                frame,
                                choices,
                            )
                        }
                },
            },
    {
        let ghost w0 = self@;
        let ghost k = chunk_index.flat();
        proof {
            lemma_wf_view(*self);
            lemma_flatten_roundtrip(chunk_index, 0);
        }
        if micros < TIME_PER_CHUNK {
            let was = self.set_skip(voxel_world, chunk_index, true);
            match was {
                Some(false) => {
                    let ghost w1 = self@;
                    self.simulate_chunk(voxel_world, chunk_index, rand, frame);
                    proof {
                        assert forall|j: int| 0 <= j < w0.len() implies (#[trigger] w0[j] is Some
                            <==> self@[j] is Some) by {
                            assert(w1[j] is Some <==> self@[j] is Some);
                        }
                    }
                },
                Some(true) => {
                    proof {
                        assert(self@ =~= w0);
                    }
                },
                None => {},
            }
            false
        } else {
            let was = self.set_skip(voxel_world, chunk_index, false);
            was.is_some()
        }
    }

    /// Advances the loaded chunks by one frame, while time is left: the chunks are taken in
    /// turn over the stored bounds with the two coordinates exchanged; a
    /// chunk advanced in an earlier frame that ran short of time is skipped, and once a frame
    /// advances all its chunks in time, every mark is cleared. At each turn the clock is read
    /// and the reading handed to `simulate_scheduled`; whatever the readings, the frame is the
    /// one of `world_frame` for them.
    pub fn simulate(&mut self, voxel_world: &mut VoxelChunkMap, frame: u8)
        requires
            old(self).consistent(old(voxel_world)),
        ensures
            final(self).consistent(final(voxel_world)),
            same_chunks(old(self)@, final(self)@),
            shapes_marked(old(voxel_world).chunks.matrix@, final(voxel_world).chunks.matrix@),
            marks_kept_outside(old(self)@, final(self)@, old(self).chunks.min_elem, old(self).chunks.max_elem),
            exists|readings: Seq<u128>, choices: Seq<Seq<(bool, usize)>>|
                {
                    &&& readings.len() == rows_from(
                        old(self).chunks.min_elem,
                        old(self).chunks.max_elem,
                        old(self).chunks.min_elem.y as int,
                    ).len()
                    &&& choices.len() == readings.len()
                    &&& turn_choices_ok(choices)
                    &&& final(self)@ == #[trigger] world_frame(
                        old(self)@,
                        old(self).chunks.min_elem,
                        old(self).chunks.max_elem,
                        frame,
                        readings,
                        choices,
                    )
                },
    {
        let ghost w0 = self@;
        let ghost vm0 = voxel_world.chunks.matrix@;
        let ghost lo = self.chunks.min_elem;
        let ghost hi = self.chunks.max_elem;
        let ghost all = rows_from(lo, hi, lo.y as int);
        let ghost mut ps: Seq<MatrixIndex> = Seq::empty();
        let ghost mut rest: Seq<MatrixIndex> = all;
        let ghost mut readings: Seq<u128> = Seq::empty();
        let ghost mut choices: Seq<Seq<(bool, usize)>> = Seq::empty();
        proof {
            lemma_wf_view(*self);
            assert(ps + rest =~= all);
        }
        let tmr = now();
        let mut rand = WorldRand::default();
        let mut need_time = false;
        let lo_x: u16 = self.chunks.min_elem.y as u16;
        let hi_x: u16 = self.chunks.max_elem.y as u16;
        let lo_y: u16 = self.chunks.min_elem.x as u16;
        let hi_y: u16 = self.chunks.max_elem.x as u16;
        let mut x: u16 = lo_x;
        while x <= hi_x
            invariant
                self.consistent(voxel_world),
                same_chunks(w0, self@),
                shapes_marked(vm0, voxel_world.chunks.matrix@),
                w0.len() == 65536,
                hi_x < 256,
                hi_y < 256,
                lo_x == lo.y && hi_x == hi.y && lo_y == lo.x && hi_y == hi.x,
                lo_x <= x,
                marks_kept_outside(w0, self@, lo, hi),
                all == rows_from(lo, hi, lo.y as int),
                ps + rest == all,
                rest == rows_from(lo, hi, x as int),
                readings.len() == ps.len(),
                choices.len() == ps.len(),
                turn_choices_ok(choices),
                self@ == scheduled_steps(w0, ps, frame, readings, choices),
                need_time == short_of_time(w0, ps, readings),
            decreases 256 - x,
        {
            proof {
                assert(rest == row_from(lo_y as int, x as int, hi_y as int) + rows_from(lo, hi, x + 1));
            }
            let mut y: u16 = lo_y;
            while y <= hi_y
                invariant
                    self.consistent(voxel_world),
                    same_chunks(w0, self@),
                    shapes_marked(vm0, voxel_world.chunks.matrix@),
                    w0.len() == 65536,
                        x < 256,
                    hi_y < 256,
                    lo_x == lo.y && hi_x == hi.y && lo_y == lo.x && hi_y == hi.x,
                    lo_x <= x <= hi_x,
                    lo_y <= y,
                    marks_kept_outside(w0, self@, lo, hi),
                    all == rows_from(lo, hi, lo.y as int),
                    ps + rest == all,
                    rest == row_from(y as int, x as int, hi_y as int) + rows_from(lo, hi, x + 1),
                    readings.len() == ps.len(),
                    choices.len() == ps.len(),
                    turn_choices_ok(choices),
                    self@ == scheduled_steps(w0, ps, frame, readings, choices),
                    need_time == short_of_time(w0, ps, readings),
                decreases 256 - y,
            {
                let chunk_index = MatrixIndex { x: x as u8, y: y as u8 };
                let ghost p = MatrixIndex { x: y as u8, y: x as u8 };
                proof {
                    lemma_flatten_roundtrip(chunk_index, 0);
                    assert(w0[chunk_index.flat()] is Some <==> self@[chunk_index.flat()] is Some);
                    assert(rest[0] == p);
                    assert(transposed(p) == chunk_index);
                }
                let micros = as_micros(&elapsed(&tmr));
                let ghost v = self@;
                let ghost vm = voxel_world.chunks.matrix@;
                if self.simulate_scheduled(voxel_world, chunk_index, &mut rand, frame, micros) {
                    need_time = true;
                }
                proof {
                    lemma_marked_trans(vm0, vm, voxel_world.chunks.matrix@);
                    assert forall|m: MatrixIndex|
                        #[trigger] w0[m.flat()] is Some && !visited(m, lo, hi) implies self@[m.flat()] is Some
                        && self@[m.flat()].unwrap().1 == w0[m.flat()].unwrap().1 by {
                        lemma_flatten_order(m, chunk_index);
                        lemma_flatten_roundtrip(m, 0);
                        assert(v[m.flat()] is Some);
                        match v[chunk_index.flat()] {
                            Some((cells, skip)) => {
                                if micros < TIME_PER_CHUNK && !skip {
                                    let a = v.update(chunk_index.flat(), Some((cells, true)));
                                    assert(a[m.flat()] == v[m.flat()]);
                                    assert(a[m.flat()] is Some);
                                }
                            },
                            None => {},
                        }
                    }
                    let ch: Seq<(bool, usize)> = match v[chunk_index.flat()] {
                        Some((cells, skip)) => if micros < TIME_PER_CHUNK && !skip {
                            choose|c: Seq<(bool, usize)>|
                                {
                                    &&& c.len() == 65536
                                    &&& forall|i: int| 0 <= i < 65536 ==> (#[trigger] c[i]).1 < 6
                                    &&& self@ == #[trigger] cell_steps(
                                        v.update(chunk_index.flat(), Some((cells, true))),
                                        chunk_order(chunk_index, frame),
                                        frame,
                                        c,
                                    )
                                }
                        } else {
                            Seq::new(65536, |i: int| (false, 0usize))
                        },
                        None => Seq::new(65536, |i: int| (false, 0usize)),
                    };
                    assert(self@ == scheduled_turn(v, chunk_index, frame, micros, ch));
                    let ps1 = ps.push(p);
                    let readings1 = readings.push(micros);
                    let choices1 = choices.push(ch);
                    assert(ps1.drop_last() =~= ps && readings1.drop_last() =~= readings && choices1.drop_last()
                        =~= choices);
                    assert(self@ == scheduled_steps(w0, ps1, frame, readings1, choices1));
                    assert(need_time == short_of_time(w0, ps1, readings1));
                    assert forall|i: int| 0 <= i < choices1.len() implies (#[trigger] choices1[i]).len() == 65536 by {
                        if i < choices.len() {
                            assert(choices1[i] == choices[i]);
                        }
                    }
                    assert forall|i: int, j: int| 0 <= i < choices1.len() && 0 <= j < 65536 implies (
                    #[trigger] choices1[i][j]).1 < 6 by {
                        if i < choices.len() {
                            assert(choices1[i] == choices[i]);
                        }
                    }
                    assert(rest.drop_first() =~= row_from(y + 1, x as int, hi_y as int) + rows_from(lo, hi, x + 1));
                    assert(ps1 + rest.drop_first() =~= ps + rest);
                    ps = ps1;
                    readings = readings1;
                    choices = choices1;
                    rest = rest.drop_first();
                }
                y = y + 1;
            }
            proof {
                assert(rest =~= rows_from(lo, hi, x + 1));
            }
            x = x + 1;
        }
        let ghost w = self@;
        proof {
            assert(rest =~= Seq::<MatrixIndex>::empty());
            assert(ps =~= all);
        }
        if !need_time {
            let ghost mut ps2: Seq<MatrixIndex> = Seq::empty();
            let ghost mut rest2: Seq<MatrixIndex> = all;
            proof {
                assert(ps2 + rest2 =~= all);
            }
            let mut x: u16 = lo_x;
            while x <= hi_x
                invariant
                    self.consistent(voxel_world),
                    same_chunks(w0, self@),
                    shapes_marked(vm0, voxel_world.chunks.matrix@),
                    w0.len() == 65536,
                    hi_x < 256,
                    hi_y < 256,
                    lo_x == lo.y && hi_x == hi.y && lo_y == lo.x && hi_y == hi.x,
                    lo_x <= x,
                    marks_kept_outside(w0, self@, lo, hi),
                    all == rows_from(lo, hi, lo.y as int),
                    ps2 + rest2 == all,
                    rest2 == rows_from(lo, hi, x as int),
                    self@ == unmarked_at(w, ps2),
                decreases 256 - x,
            {
                proof {
                    assert(rest2 == row_from(lo_y as int, x as int, hi_y as int) + rows_from(lo, hi, x + 1));
                }
                let mut y: u16 = lo_y;
                while y <= hi_y
                    invariant
                        self.consistent(voxel_world),
                        same_chunks(w0, self@),
                        shapes_marked(vm0, voxel_world.chunks.matrix@),
                        w0.len() == 65536,
                        x < 256,
                        hi_y < 256,
                        lo_x == lo.y && hi_x == hi.y && lo_y == lo.x && hi_y == hi.x,
                        lo_x <= x <= hi_x,
                        lo_y <= y,
                        marks_kept_outside(w0, self@, lo, hi),
                        all == rows_from(lo, hi, lo.y as int),
                        ps2 + rest2 == all,
                        rest2 == row_from(y as int, x as int, hi_y as int) + rows_from(lo, hi, x + 1),
                        self@ == unmarked_at(w, ps2),
                    decreases 256 - y,
                {
                    let chunk_index = MatrixIndex { x: x as u8, y: y as u8 };
                    let ghost p = MatrixIndex { x: y as u8, y: x as u8 };
                    let ghost v = self@;
                    let _was = self.set_skip(voxel_world, chunk_index, false);
                    proof {
                        assert forall|m: MatrixIndex|
                            #[trigger] w0[m.flat()] is Some && !visited(m, lo, hi) implies self@[m.flat()] is Some
                            && self@[m.flat()].unwrap().1 == w0[m.flat()].unwrap().1 by {
                            lemma_flatten_order(m, chunk_index);
                            lemma_flatten_roundtrip(m, 0);
                            assert(v[m.flat()] is Some);
                        }
                        assert(rest2[0] == p);
                        assert(transposed(p) == chunk_index);
                        let ps3 = ps2.push(p);
                        assert(ps3.drop_last() =~= ps2);
                        assert(self@ == unmarked_at(w, ps3));
                        assert(rest2.drop_first() =~= row_from(y + 1, x as int, hi_y as int) + rows_from(lo, hi, x + 1));
                        assert(ps3 + rest2.drop_first() =~= ps2 + rest2);
                        ps2 = ps3;
                        rest2 = rest2.drop_first();
                    }
                    y = y + 1;
                }
                proof {
                    assert(rest2 =~= rows_from(lo, hi, x + 1));
                }
                x = x + 1;
            }
            proof {
                assert(rest2 =~= Seq::<MatrixIndex>::empty());
                assert(ps2 =~= all);
                assert(self@ == world_frame(w0, lo, hi, frame, readings, choices));
            }
        } else {
            proof {
                assert(self@ == world_frame(w0, lo, hi, frame, readings, choices));
            }
        }
    }
}
} // verus!
