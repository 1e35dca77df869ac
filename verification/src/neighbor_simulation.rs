use crate::cell::{displaces, Cell, CellType};
use crate::chunk_map::{
    cell_of, lemma_cell_valid, lemma_read_after_write, lemma_marked_trans, lemma_touched_marked, shapes_marked, shapes_touched, lemma_offset_moves_world_position, lemma_wf_view,
    lemma_world_coordinates_roundtrip, with_cell, ChunkMap, ChunkMapModified, FullIndex, VoxelChunkMap,
};
use crate::matrix::{filled, in_box, lemma_flatten_order, lemma_flatten_roundtrip, MatrixIndex};
use crate::simulate_world::{
    swap_touch,
    as_micros, elapsed, exchanged, lemma_same_loaded_trans, now, same_loaded, WorldRand,
};
use std::time::Instant;
use vstd::prelude::*;
use vstd::std_specs::ops::{AddSpec, SubSpec};

verus! {

/// The time, in microseconds, after which a frame of this pass stops advancing chunks.
pub const TIME_ALLOCATED: u128 = 4096;

/// The cell `(dx, dy)` away from `i` in world coordinates.
pub open spec fn offset(i: FullIndex, dx: int, dy: int) -> FullIndex {
    FullIndex::of_world(i.world_x() + dx, i.world_y() + dy)
}

/// The place `(dx, dy)` away from `i` lies in the world.
pub open spec fn in_world(i: FullIndex, dx: int, dy: int) -> bool {
    &&& 0 <= i.world_x() + dx <= 65535
    &&& 0 <= i.world_y() + dy <= 65535
}

/// The cell at `i` can have its turn in frame `frame` without its places leaving the world: it
/// is not a liquid or a granular cell still to move in this frame, or it has neighbours to
/// the left, to the right and below. (A gas drawing a place outside the world stays put.)
pub open spec fn fits_nearby(v: Seq<Option<(Seq<Cell>, bool)>>, i: FullIndex, frame: u8) -> bool {
    match cell_of(v, i) {
        None => true,
        Some(c) => c.last_changed == frame || !(c.kind() == CellType::Liquid || c.kind() == CellType::Granular)
            || (1 <= i.world_x() <= 65534 && 1 <= i.world_y()),
    }
}

/// A gas's one place, when it lies in the world; none otherwise.
pub open spec fn gas_place(i: FullIndex, dx: int, dy: int) -> Seq<FullIndex> {
    if in_world(i, dx, dy) {
        seq![offset(i, dx, dy)]
    } else {
        Seq::empty()
    }
}

/// The cell at `i` may take the place of the cell at `t`: both are loaded, and the second is
/// a liquid, a gas or air of another kind than the first.
pub open spec fn can_take(v: Seq<Option<(Seq<Cell>, bool)>>, i: FullIndex, t: FullIndex) -> bool {
    match (cell_of(v, i), cell_of(v, t)) {
        (Some(a), Some(b)) => displaces(a.id, b.id),
        _ => false,
    }
}

/// The world view once the cell at `i` has tried the places `l` in order: it changes places
/// with the first it may take; when it may take none, nothing changes.
pub open spec fn first_move(v: Seq<Option<(Seq<Cell>, bool)>>, i: FullIndex, l: Seq<FullIndex>) -> Seq<
    Option<(Seq<Cell>, bool)>,
>
    decreases l.len(),
{
    if l.len() == 0 {
        v
    } else if can_take(v, i, l[0]) {
        exchanged(v, i, l[0])
    } else {
        first_move(v, i, l.drop_first())
    }
}

/// The places that a cell of kind `kind` at `i` tries, in order, given the coin toss
/// (liquids and granular cells) or the draw among six (gases): liquids go down, then down
/// and to a side, then to a side; granular cells go down, then down and to a side; a gas goes
/// to one place picked by the draw (up-left, up, up-right, left, its own place, right), and
/// stays when that place lies outside the world.
pub open spec fn nearby_list(kind: CellType, i: FullIndex, coin: bool, roll: usize) -> Seq<FullIndex> {
    match kind {
        CellType::Liquid => if coin {
            seq![offset(i, 0, -1), offset(i, 1, -1), offset(i, -1, -1), offset(i, 1, 0), offset(i, -1, 0)]
        } else {
            seq![offset(i, 0, -1), offset(i, -1, -1), offset(i, 1, -1), offset(i, -1, 0), offset(i, 1, 0)]
        },
        CellType::Granular => if coin {
            seq![offset(i, 0, -1), offset(i, 1, -1), offset(i, -1, -1)]
        } else {
            seq![offset(i, 0, -1), offset(i, -1, -1), offset(i, 1, -1)]
        },
        CellType::Gas => if roll == 0 {
            gas_place(i, -1, 1)
        } else if roll == 1 {
            gas_place(i, 0, 1)
        } else if roll == 2 {
            gas_place(i, 1, 1)
        } else if roll == 3 {
            gas_place(i, -1, 0)
        } else if roll == 4 {
            gas_place(i, 0, 0)
        } else {
            gas_place(i, 1, 0)
        },
        _ => Seq::empty(),
    }
}

/// What `simulate_cell_nearby(index)` does to the world view `v` in frame `frame`, given
/// the coin toss and the draw: a cell not yet advanced in this frame is marked, and then
/// takes the first place of its kind's list that it may take.
pub open spec fn nearby_step(v: Seq<Option<(Seq<Cell>, bool)>>, index: FullIndex, frame: u8, coin: bool, roll: usize) -> Seq<
    Option<(Seq<Cell>, bool)>,
> {
    match cell_of(v, index) {
        None => v,
        Some(c) => if c.last_changed == frame {
            v
        } else {
            first_move(
                with_cell(v, index, Cell { last_changed: frame, ..c }),
                index,
                nearby_list(c.kind(), index, coin, roll),
            )
        },
    }
}

/// The cell at `index` has its turn in frame `frame` and is of a kind that moves: it draws
/// from the generator.
pub open spec fn nearby_draws(v: Seq<Option<(Seq<Cell>, bool)>>, index: FullIndex, frame: u8) -> bool {
    match cell_of(v, index) {
        None => false,
        Some(c) => c.last_changed != frame && (c.kind() == CellType::Liquid || c.kind() == CellType::Granular
            || c.kind() == CellType::Gas),
    }
}

/// The cell at `index` moves in frame `frame`, given the coin toss and the draw: it has its
/// turn, and may take one of the places of its kind's list.
pub open spec fn nearby_moves(v: Seq<Option<(Seq<Cell>, bool)>>, index: FullIndex, frame: u8, coin: bool, roll: usize) -> bool {
    match cell_of(v, index) {
        None => false,
        Some(c) => {
            &&& c.last_changed != frame
            &&& exists|j: int|
                0 <= j < nearby_list(c.kind(), index, coin, roll).len() && #[trigger] can_take(
                    with_cell(v, index, Cell { last_changed: frame, ..c }),
                    index,
                    nearby_list(c.kind(), index, coin, roll)[j],
                )
        },
    }
}

/// The turn of the place at column `x` within row `y` of a chunk in `simulate_chunk_nearby`:
/// even rows are walked left to right, odd rows right to left.
pub open spec fn row_place(y: int, x: int) -> int {
    if y % 2 == 0 {
        x
    } else {
        255 - x
    }
}

/// Every loaded chunk of `v` holds a full grid of cells.
pub open spec fn full_chunks(v: Seq<Option<(Seq<Cell>, bool)>>) -> bool {
    &&& v.len() == 65536
    &&& forall|k: int| 0 <= k < 65536 && #[trigger] v[k] is Some ==> v[k].unwrap().0.len() == 65536
}

/// Replacing a cell keeps every chunk a full grid.
proof fn lemma_with_cell_full(v: Seq<Option<(Seq<Cell>, bool)>>, i: FullIndex, c: Cell)
    requires
        full_chunks(v),
    ensures
        full_chunks(with_cell(v, i, c)),
{
    lemma_flatten_roundtrip(i.chunk_index, 0);
    lemma_flatten_roundtrip(i.cell_index, 0);
    let w = with_cell(v, i, c);
    assert forall|k: int| 0 <= k < 65536 && #[trigger] w[k] is Some implies w[k].unwrap().0.len() == 65536 by {
        if k != i.chunk_index.flat() {
            assert(w[k] == v[k]);
        }
    }
}

/// Trying a list of places either changes nothing or exchanges the cell with one place of
/// the list that it may take.
proof fn lemma_first_move_cases(v: Seq<Option<(Seq<Cell>, bool)>>, i: FullIndex, l: Seq<FullIndex>)
    ensures
        first_move(v, i, l) == v || exists|j: int|
            0 <= j < l.len() && can_take(v, i, l[j]) && first_move(v, i, l) == #[trigger] exchanged(v, i, l[j]),
    decreases l.len(),
{
    if l.len() > 0 {
        if can_take(v, i, l[0]) {
            assert(first_move(v, i, l) == exchanged(v, i, l[0]));
        } else {
            lemma_first_move_cases(v, i, l.drop_first());
            if first_move(v, i, l) != v {
                let j = choose|j: int|
                    0 <= j < l.drop_first().len() && can_take(v, i, l.drop_first()[j]) && first_move(
                        v,
                        i,
                        l.drop_first(),
                    ) == #[trigger] exchanged(v, i, l.drop_first()[j]);
                assert(l[j + 1] == l.drop_first()[j]);
            }
        }
    }
}

/// A place `(dx, dy)` away that lies in the world is that far away in world coordinates.
proof fn lemma_offset_world(i: FullIndex, dx: int, dy: int)
    requires
        in_world(i, dx, dy),
    ensures
        offset(i, dx, dy).world_x() == i.world_x() + dx,
        offset(i, dx, dy).world_y() == i.world_y() + dy,
{
    lemma_world_coordinates_roundtrip(i, (i.world_x() + dx) as u16, (i.world_y() + dy) as u16);
}

/// Two cells at the same world coordinates are the same cell.
proof fn lemma_same_world_place(a: FullIndex, b: FullIndex)
    requires
        a.world_x() == b.world_x(),
        a.world_y() == b.world_y(),
    ensures
        a == b,
{
    lemma_world_coordinates_roundtrip(a, 0, 0);
    lemma_world_coordinates_roundtrip(b, 0, 0);
}

/// Trying the places `l` in order ends at the first that the cell may take.
proof fn lemma_first_move_at(v: Seq<Option<(Seq<Cell>, bool)>>, i: FullIndex, l: Seq<FullIndex>, k: int)
    requires
        0 <= k < l.len(),
        forall|j: int| 0 <= j < k ==> !can_take(v, i, #[trigger] l[j]),
        can_take(v, i, l[k]),
    ensures
        first_move(v, i, l) == exchanged(v, i, l[k]),
    decreases k,
{
    if k > 0 {
        assert(!can_take(v, i, l[0]));
        let d = l.drop_first();
        assert forall|j: int| 0 <= j < k - 1 implies !can_take(v, i, #[trigger] d[j]) by {
            assert(d[j] == l[j + 1]);
        }
        assert(d[k - 1] == l[k]);
        lemma_first_move_at(v, i, d, k - 1);
    }
}

/// After the cell at `i` is marked and exchanged with the cell at `t`, the marked cell is at
/// `t` and the cell of `t` at `i`.
proof fn lemma_marked_exchange(v: Seq<Option<(Seq<Cell>, bool)>>, i: FullIndex, t: FullIndex, c1: Cell)
    requires
        full_chunks(v),
        cell_of(v, i) is Some,
        cell_of(v, t) is Some,
        t != i,
    ensures
        cell_of(exchanged(with_cell(v, i, c1), i, t), t) == Some(c1),
        cell_of(exchanged(with_cell(v, i, c1), i, t), i) == cell_of(v, t),
        cell_of(with_cell(v, i, c1), t) == cell_of(v, t),
        cell_of(with_cell(v, i, c1), i) == Some(c1),
{
    let w1 = with_cell(v, i, c1);
    lemma_with_cell_full(v, i, c1);
    lemma_read_after_write(v, i, c1, t);
    let b = cell_of(v, t).unwrap();
    let w2 = with_cell(w1, i, b);
    lemma_with_cell_full(w1, i, b);
    lemma_read_after_write(w1, i, b, t);
    lemma_read_after_write(w2, t, c1, i);
}

/// The kinds that no cell may displace in the neighbour pass: static and granular cells.
pub open spec fn solid_kind(k: CellType) -> bool {
    k == CellType::Static || k == CellType::Granular
}

/// In the neighbour pass a cell may take the place of a liquid, a gas or air of another kind,
/// and of nothing else: not of a static, granular or burning cell, not of a cell of its own
/// kind, and not of a place whose chunk is not loaded (so `try_swap_nearby` exchanges the two
/// cells exactly then).
pub proof fn lemma_what_a_cell_may_take(v: Seq<Option<(Seq<Cell>, bool)>>, i: FullIndex, t: FullIndex)
    ensures
        can_take(v, i, t) <==> {
            &&& cell_of(v, i) is Some
            &&& cell_of(v, t) is Some
            &&& cell_of(v, t).unwrap().id != cell_of(v, i).unwrap().id
            &&& (cell_of(v, t).unwrap().kind() == CellType::Liquid || cell_of(v, t).unwrap().kind() == CellType::Gas
                || cell_of(v, t).unwrap().kind() == CellType::Air)
        },
{
}

/// In the neighbour pass a liquid spreads sideways: when the three places below it (straight
/// down and diagonally down) hold static or granular cells, and the two places beside it hold
/// air or such cells, at least one of them air, the liquid moves into a place beside it that
/// held air, and air takes its place.
pub proof fn lemma_liquid_spreads_sideways(
    v: Seq<Option<(Seq<Cell>, bool)>>,
    i: FullIndex,
    frame: u8,
    coin: bool,
    roll: usize,
)
    requires
        full_chunks(v),
        cell_of(v, i) is Some,
        cell_of(v, i).unwrap().kind() == CellType::Liquid,
        cell_of(v, i).unwrap().last_changed != frame,
        1 <= i.world_x() <= 65534,
        1 <= i.world_y(),
        forall|t: FullIndex|
            t.world_y() == i.world_y() - 1 && i.world_x() - 1 <= t.world_x() <= i.world_x() + 1 ==> #[trigger] cell_of(v, t)
                is Some && solid_kind(cell_of(v, t).unwrap().kind()),
        forall|t: FullIndex|
            t.world_y() == i.world_y() && (t.world_x() == i.world_x() - 1 || t.world_x() == i.world_x() + 1)
                ==> #[trigger] cell_of(v, t) is Some && (solid_kind(cell_of(v, t).unwrap().kind()) || cell_of(
                v,
                t,
            ).unwrap().kind() == CellType::Air),
        exists|t: FullIndex|
            t.world_y() == i.world_y() && (t.world_x() == i.world_x() - 1 || t.world_x() == i.world_x() + 1)
                && #[trigger] cell_of(v, t) is Some && cell_of(v, t).unwrap().kind() == CellType::Air,
    ensures
        ({
            let w = nearby_step(v, i, frame, coin, roll);
            let c = cell_of(v, i).unwrap();
            &&& cell_of(w, i) is Some
            &&& cell_of(w, i).unwrap().kind() == CellType::Air
            &&& exists|t: FullIndex|
                t.world_y() == i.world_y() && (t.world_x() == i.world_x() - 1 || t.world_x() == i.world_x() + 1)
                    && cell_of(v, t) is Some && cell_of(v, t).unwrap().kind() == CellType::Air && #[trigger] cell_of(
                    w,
                    t,
                ) == Some(Cell { last_changed: frame, ..c })
        }),
{
    let c = cell_of(v, i).unwrap();
    let c1 = Cell { last_changed: frame, ..c };
    let w1 = with_cell(v, i, c1);
    let l = nearby_list(c.kind(), i, coin, roll);
    let d = offset(i, 0, -1);
    let dr = offset(i, 1, -1);
    let dl = offset(i, -1, -1);
    let r = offset(i, 1, 0);
    let lf = offset(i, -1, 0);
    lemma_offset_world(i, 0, -1);
    lemma_offset_world(i, 1, -1);
    lemma_offset_world(i, -1, -1);
    lemma_offset_world(i, 1, 0);
    lemma_offset_world(i, -1, 0);
    assert(cell_of(v, d) is Some && solid_kind(cell_of(v, d).unwrap().kind()));
    assert(cell_of(v, dr) is Some && solid_kind(cell_of(v, dr).unwrap().kind()));
    assert(cell_of(v, dl) is Some && solid_kind(cell_of(v, dl).unwrap().kind()));
    assert(cell_of(v, r) is Some);
    assert(cell_of(v, lf) is Some);
    lemma_marked_exchange(v, i, d, c1);
    lemma_marked_exchange(v, i, dr, c1);
    lemma_marked_exchange(v, i, dl, c1);
    lemma_marked_exchange(v, i, r, c1);
    lemma_marked_exchange(v, i, lf, c1);
    let e = choose|t: FullIndex|
        t.world_y() == i.world_y() && (t.world_x() == i.world_x() - 1 || t.world_x() == i.world_x() + 1)
            && #[trigger] cell_of(v, t) is Some && cell_of(v, t).unwrap().kind() == CellType::Air;
    if e.world_x() == i.world_x() + 1 {
        lemma_same_world_place(e, r);
    } else {
        lemma_same_world_place(e, lf);
    }
    assert(!can_take(w1, i, d) && !can_take(w1, i, dr) && !can_take(w1, i, dl));
    let first = if coin { r } else { lf };
    let second = if coin { lf } else { r };
    assert(l[0] == d);
    assert(l[3] == first && l[4] == second);
    if cell_of(v, first).unwrap().kind() == CellType::Air {
        assert(can_take(w1, i, first));
        lemma_first_move_at(w1, i, l, 3);
        assert(cell_of(nearby_step(v, i, frame, coin, roll), first) == Some(c1));
    } else {
        assert(!can_take(w1, i, first));
        assert(cell_of(v, second).unwrap().kind() == CellType::Air);
        assert(can_take(w1, i, second));
        lemma_first_move_at(w1, i, l, 4);
        assert(cell_of(nearby_step(v, i, frame, coin, roll), second) == Some(c1));
    }
}

/// In the neighbour pass a liquid or granular cell falls into the place below it when that
/// place holds a gas or air of another kind: a cell may take the place of a gas or of air,
/// and the gas or air rises into the place it left.
pub proof fn lemma_falls_through_gas_and_air(
    v: Seq<Option<(Seq<Cell>, bool)>>,
    i: FullIndex,
    t: FullIndex,
    frame: u8,
    coin: bool,
    roll: usize,
)
    requires
        full_chunks(v),
        cell_of(v, i) is Some,
        cell_of(v, i).unwrap().kind() == CellType::Liquid || cell_of(v, i).unwrap().kind() == CellType::Granular,
        cell_of(v, i).unwrap().last_changed != frame,
        1 <= i.world_y(),
        t.world_x() == i.world_x(),
        t.world_y() == i.world_y() - 1,
        cell_of(v, t) is Some,
        cell_of(v, t).unwrap().kind() == CellType::Gas || cell_of(v, t).unwrap().kind() == CellType::Air,
        cell_of(v, t).unwrap().id != cell_of(v, i).unwrap().id,
    ensures
        can_take(v, i, t),
        cell_of(nearby_step(v, i, frame, coin, roll), t) == Some(Cell { last_changed: frame, ..cell_of(v, i).unwrap() }),
        cell_of(nearby_step(v, i, frame, coin, roll), i) == cell_of(v, t),
{
    let c = cell_of(v, i).unwrap();
    let c1 = Cell { last_changed: frame, ..c };
    let w1 = with_cell(v, i, c1);
    let l = nearby_list(c.kind(), i, coin, roll);
    lemma_offset_world(i, 0, -1);
    lemma_same_world_place(t, offset(i, 0, -1));
    lemma_marked_exchange(v, i, t, c1);
    assert(l[0] == t);
    assert(can_take(w1, i, t));
    lemma_first_move_at(w1, i, l, 0);
}

/// In the neighbour pass a cell moves at most one place along each axis, changing places with
/// a cell it may take: a granular cell only moves down, a liquid moves down or sideways,
/// never up, and a gas moves up or sideways, never down. A cell whose turn has passed is
/// left alone, and one that does not move is only marked.
pub proof fn lemma_nearby_moves_one_place(
    v: Seq<Option<(Seq<Cell>, bool)>>,
    i: FullIndex,
    frame: u8,
    coin: bool,
    roll: usize,
)
    requires
        full_chunks(v),
        cell_of(v, i) is Some,
        fits_nearby(v, i, frame),
    ensures
        ({
            let c = cell_of(v, i).unwrap();
            let c1 = Cell { last_changed: frame, ..c };
            let w = nearby_step(v, i, frame, coin, roll);
            &&& c.last_changed == frame ==> w == v
            &&& c.last_changed != frame ==> (w == with_cell(v, i, c1) || exists|t: FullIndex|
                {
                    &&& t != i
                    &&& -1 <= t.world_x() - i.world_x() <= 1
                    &&& -1 <= t.world_y() - i.world_y() <= 1
                    &&& can_take(v, i, t)
                    &&& #[trigger] cell_of(w, t) == Some(c1)
                    &&& cell_of(w, i) == cell_of(v, t)
                    &&& c.kind() == CellType::Granular ==> t.world_y() == i.world_y() - 1
                    &&& c.kind() == CellType::Liquid ==> t.world_y() <= i.world_y()
                    &&& c.kind() == CellType::Gas ==> t.world_y() >= i.world_y()
                    &&& (c.kind() == CellType::Liquid || c.kind() == CellType::Granular || c.kind()
                        == CellType::Gas)
                })
        }),
{
    let c = cell_of(v, i).unwrap();
    if c.last_changed != frame {
        let c1 = Cell { last_changed: frame, ..c };
        let w1 = with_cell(v, i, c1);
        let l = nearby_list(c.kind(), i, coin, roll);
        lemma_first_move_cases(w1, i, l);
        lemma_with_cell_full(v, i, c1);
        lemma_read_after_write(v, i, c1, i);
        if first_move(w1, i, l) != w1 {
            let j = choose|j: int| 0 <= j < l.len() && can_take(w1, i, l[j]) && first_move(w1, i, l) == #[trigger] exchanged(w1, i, l[j]);
            let t = l[j];
            assert(t != i);
            lemma_read_after_write(v, i, c1, t);
            assert(can_take(v, i, t));
            lemma_marked_exchange(v, i, t, c1);
            if c.kind() == CellType::Liquid || c.kind() == CellType::Granular {
                lemma_offset_world(i, 0, -1);
                lemma_offset_world(i, 1, -1);
                lemma_offset_world(i, -1, -1);
                lemma_offset_world(i, 1, 0);
                lemma_offset_world(i, -1, 0);
                if c.kind() == CellType::Liquid {
                    assert(j == 0 || j == 1 || j == 2 || j == 3 || j == 4);
                } else {
                    assert(j == 0 || j == 1 || j == 2);
                }
            } else {
                assert(c.kind() == CellType::Gas);
                assert(j == 0);
                if roll == 0 {
                    lemma_offset_world(i, -1, 1);
                } else if roll == 1 {
                    lemma_offset_world(i, 0, 1);
                } else if roll == 2 {
                    lemma_offset_world(i, 1, 1);
                } else if roll == 3 {
                    lemma_offset_world(i, -1, 0);
                } else if roll == 4 {
                    lemma_offset_world(i, 0, 0);
                } else {
                    lemma_offset_world(i, 1, 0);
                }
            }
        }
    }
}

/// The turn of the cell at `p` keeps every other cell fit for its own turn: a cell it
/// displaces takes the place of `p`, and the cell of `p` that moves is marked as advanced.
proof fn lemma_nearby_step_keeps_fits(
    v: Seq<Option<(Seq<Cell>, bool)>>,
    p: FullIndex,
    frame: u8,
    coin: bool,
    roll: usize,
    q: FullIndex,
)
    requires
        full_chunks(v),
        q != p,
        fits_nearby(v, q, frame),
    ensures
        fits_nearby(nearby_step(v, p, frame, coin, roll), q, frame),
        full_chunks(nearby_step(v, p, frame, coin, roll)),
{
    match cell_of(v, p) {
        None => {},
        Some(c) => if c.last_changed != frame {
            let c1 = Cell { last_changed: frame, ..c };
            let w1 = with_cell(v, p, c1);
            lemma_with_cell_full(v, p, c1);
            lemma_read_after_write(v, p, c1, q);
            let l = nearby_list(c.kind(), p, coin, roll);
            lemma_first_move_cases(w1, p, l);
            if first_move(w1, p, l) != w1 {
                let j = choose|j: int|
                    0 <= j < l.len() && can_take(w1, p, l[j]) && first_move(w1, p, l) == #[trigger] exchanged(
                        w1,
                        p,
                        l[j],
                    );
                let t = l[j];
                let a = cell_of(w1, t).unwrap();
                let w2 = with_cell(w1, p, a);
                lemma_with_cell_full(w1, p, a);
                lemma_with_cell_full(w2, t, c1);
                lemma_read_after_write(w1, p, a, q);
                lemma_read_after_write(w1, p, a, t);
                lemma_read_after_write(w2, t, c1, q);
                assert(cell_of(w1, p) == Some(c1));
            }
        },
    }
}

/// The cells of the chunk at `chunk` in the order in which `simulate_chunk_nearby` advances
/// them: rows from the top; even rows from left to right, odd rows from right to left.
pub open spec fn nearby_order(chunk: MatrixIndex) -> Seq<FullIndex> {
    Seq::new(
        65536,
        |k: int|
            {
                let y = 255 - k / 256;
                let j = k % 256;
                let x = if y % 2 == 0 {
                    j
                } else {
                    255 - j
                };
                FullIndex { cell_index: MatrixIndex { x: x as u8, y: y as u8 }, chunk_index: chunk }
            },
    )
}

/// The world view after advancing the cells `cells` in order, the `i`-th with the coin toss
/// and draw `choices[i]`.
pub open spec fn nearby_steps(
    v: Seq<Option<(Seq<Cell>, bool)>>,
    cells: Seq<FullIndex>,
    frame: u8,
    choices: Seq<(bool, usize)>,
) -> Seq<Option<(Seq<Cell>, bool)>>
    decreases cells.len(),
{
    if cells.len() == 0 {
        v
    } else {
        nearby_step(
            nearby_steps(v, cells.drop_last(), frame, choices.drop_last()),
            cells.last(),
            frame,
            choices.last().0,
            choices.last().1,
        )
    }
}

/// Advancing two lists of cells one after the other is advancing their concatenation.
pub proof fn lemma_nearby_steps_append(
    v: Seq<Option<(Seq<Cell>, bool)>>,
    a: Seq<FullIndex>,
    b: Seq<FullIndex>,
    frame: u8,
    ca: Seq<(bool, usize)>,
    cb: Seq<(bool, usize)>,
)
    requires
        ca.len() == a.len(),
        cb.len() == b.len(),
    ensures
        nearby_steps(v, a + b, frame, ca + cb) == nearby_steps(nearby_steps(v, a, frame, ca), b, frame, cb),
    decreases b.len(),
{
    if b.len() == 0 {
        assert(a + b =~= a);
        assert(ca + cb =~= ca);
    } else {
        lemma_nearby_steps_append(v, a, b.drop_last(), frame, ca, cb.drop_last());
        assert((a + b).drop_last() =~= a + b.drop_last());
        assert((ca + cb).drop_last() =~= ca + cb.drop_last());
    }
}

/// The loaded chunks of the world view `v` among its first `p` places, in row-major order.
pub open spec fn loaded_before(v: Seq<Option<(Seq<Cell>, bool)>>, p: int) -> Seq<MatrixIndex>
    decreases p,
{
    if p <= 0 {
        Seq::empty()
    } else {
        let s = loaded_before(v, p - 1);
        if p - 1 < v.len() && v[p - 1] is Some {
            s.push(MatrixIndex::unflat(p - 1))
        } else {
            s
        }
    }
}

/// The loaded chunks of `v` in row-major order, the order in which a pass counts them.
pub open spec fn loaded_chunks(v: Seq<Option<(Seq<Cell>, bool)>>) -> Seq<MatrixIndex> {
    loaded_before(v, 65536)
}

/// The cells of the chunks `chunks`, chunk after chunk, each in the order of `nearby_order`.
pub open spec fn chunk_cells(chunks: Seq<MatrixIndex>) -> Seq<FullIndex>
    decreases chunks.len(),
{
    if chunks.len() == 0 {
        Seq::empty()
    } else {
        chunk_cells(chunks.drop_last()) + nearby_order(chunks.last())
    }
}

/// The chunks of `l` counted (from one) after `first` and up to `t`.
pub open spec fn counted_between(l: Seq<MatrixIndex>, first: int, t: int) -> Seq<MatrixIndex> {
    if first < t {
        l.subrange(first, t)
    } else {
        Seq::empty()
    }
}

/// The chunks that one frame of this pass advances, in order: those of the loaded list `l`
/// counted after `first` and up to `t1`, then, from the start again, those up to `t2`.
pub open spec fn nearby_schedule(l: Seq<MatrixIndex>, first: int, t1: int, t2: int) -> Seq<MatrixIndex> {
    counted_between(l, first, t1) + counted_between(l, 0, t2)
}

/// A frame of this pass that never runs out of time advances every loaded chunk exactly once:
/// its schedule is the loaded list `l` turned round to start after the chunk counted
/// `first` (or at the start, when `first` is not below the number of chunks).
pub proof fn lemma_unhurried_frame_takes_each_chunk_once(l: Seq<MatrixIndex>, first: int)
    requires
        0 <= first,
    ensures
        ({
            let n = l.len() as int;
            let s = if first < n {
                first
            } else {
                n
            };
            &&& nearby_outcome(n, first, n, if first == 0 {
                0
            } else {
                s
            }, 0)
            &&& nearby_schedule(l, first, n, if first == 0 {
                0
            } else {
                s
            }) == l.subrange(s, n) + l.subrange(0, s)
        }),
{
    let n = l.len() as int;
    if first == 0 {
        assert(nearby_schedule(l, first, n, 0) =~= l.subrange(0, n) + l.subrange(0, 0));
    } else if first < n {
        assert(nearby_schedule(l, first, n, first) =~= l.subrange(first, n) + l.subrange(0, first));
    } else {
        assert(nearby_schedule(l, first, n, n) =~= l.subrange(n, n) + l.subrange(0, n));
    }
}

/// Each chunk brings its 65536 cells.
pub proof fn lemma_chunk_cells_len(l: Seq<MatrixIndex>)
    ensures
        chunk_cells(l).len() == 65536 * l.len(),
    decreases l.len(),
{
    if l.len() > 0 {
        lemma_chunk_cells_len(l.drop_last());
    }
}

/// The cells of two lists of chunks are those of the first, then those of the second.
pub proof fn lemma_chunk_cells_append(a: Seq<MatrixIndex>, b: Seq<MatrixIndex>)
    ensures
        chunk_cells(a + b) == chunk_cells(a) + chunk_cells(b),
    decreases b.len(),
{
    if b.len() == 0 {
        assert(a + b =~= a);
        assert(chunk_cells(a) + chunk_cells(b) =~= chunk_cells(a));
    } else {
        lemma_chunk_cells_append(a, b.drop_last());
        assert((a + b).drop_last() =~= a + b.drop_last());
        assert(chunk_cells(a + b) =~= chunk_cells(a) + chunk_cells(b));
    }
}

/// A list grows by one place at a time: the loaded chunks among fewer places are a prefix.
proof fn lemma_loaded_before_prefix(v: Seq<Option<(Seq<Cell>, bool)>>, q: int, p: int)
    requires
        0 <= q <= p,
    ensures
        loaded_before(v, q).len() <= loaded_before(v, p).len(),
        loaded_before(v, p).subrange(0, loaded_before(v, q).len() as int) == loaded_before(v, q),
    decreases p - q,
{
    if q < p {
        lemma_loaded_before_prefix(v, q, p - 1);
        let s = loaded_before(v, p - 1);
        let n = loaded_before(v, q).len() as int;
        assert(loaded_before(v, p).subrange(0, n) =~= s.subrange(0, n));
    } else {
        assert(loaded_before(v, p).subrange(0, loaded_before(v, p).len() as int) =~= loaded_before(v, p));
    }
}

/// Places without a loaded chunk add nothing to the list.
proof fn lemma_loaded_before_gap(v: Seq<Option<(Seq<Cell>, bool)>>, p: int, q: int)
    requires
        0 <= p <= q,
        forall|k: int| p <= k < q && k < v.len() ==> #[trigger] v[k] is None,
    ensures
        loaded_before(v, q) == loaded_before(v, p),
    decreases q - p,
{
    if p < q {
        lemma_loaded_before_gap(v, p, q - 1);
    }
}

/// The list among the first `p` places has at most `p` chunks.
proof fn lemma_loaded_before_len(v: Seq<Option<(Seq<Cell>, bool)>>, p: int)
    requires
        0 <= p,
    ensures
        loaded_before(v, p).len() <= p,
    decreases p,
{
    if p > 0 {
        lemma_loaded_before_len(v, p - 1);
    }
}

/// The loaded chunks among the first `p` places come in strictly increasing places, all
/// before `p`.
proof fn lemma_loaded_before_sorted(v: Seq<Option<(Seq<Cell>, bool)>>, p: int)
    requires
        0 <= p <= 65536,
    ensures
        forall|i: int, j: int|
            0 <= i < j < loaded_before(v, p).len() ==> (#[trigger] loaded_before(v, p)[i]).flat() < (
            #[trigger] loaded_before(v, p)[j]).flat(),
        forall|i: int| 0 <= i < loaded_before(v, p).len() ==> (#[trigger] loaded_before(v, p)[i]).flat() < p,
    decreases p,
{
    if p > 0 {
        lemma_loaded_before_sorted(v, p - 1);
        lemma_flatten_roundtrip(MatrixIndex::unflat(0), (p - 1) as u16);
        let s = loaded_before(v, p - 1);
        let t = loaded_before(v, p);
        if p - 1 < v.len() && v[p - 1] is Some {
            assert(t == s.push(MatrixIndex::unflat(p - 1)));
            assert(MatrixIndex::unflat(p - 1).flat() == p - 1);
            assert forall|i: int, j: int| 0 <= i < j < t.len() implies (#[trigger] t[i]).flat() < (
            #[trigger] t[j]).flat() by {
                if j < s.len() {
                    assert(t[i] == s[i] && t[j] == s[j]);
                } else {
                    assert(t[i] == s[i]);
                }
            }
            assert forall|i: int| 0 <= i < t.len() implies (#[trigger] t[i]).flat() < p by {
                if i < s.len() {
                    assert(t[i] == s[i]);
                }
            }
        } else {
            assert(t == s);
        }
    }
}

/// The chunk `m` is counted (from one) after `first` and not after `upto` in the list `l`.
pub open spec fn nearby_due(l: Seq<MatrixIndex>, first: int, upto: int, m: MatrixIndex) -> bool {
    exists|k: int| first <= k < upto && 0 <= k < l.len() && l[k] == m
}

/// Views with the same loaded places have the same list of loaded chunks.
proof fn lemma_loaded_before_same(a: Seq<Option<(Seq<Cell>, bool)>>, b: Seq<Option<(Seq<Cell>, bool)>>, p: int)
    requires
        same_loaded(a, b),
    ensures
        loaded_before(a, p) == loaded_before(b, p),
    decreases p,
{
    if p > 0 {
        lemma_loaded_before_same(a, b, p - 1);
    }
}

/// `choices` holds a coin toss and a draw (below 6) for each cell of the chunks `chunks`.
pub open spec fn choices_fit(choices: Seq<(bool, usize)>, chunks: Seq<MatrixIndex>) -> bool {
    &&& choices.len() == 65536 * chunks.len()
    &&& forall|i: int| 0 <= i < choices.len() ==> (#[trigger] choices[i]).1 < 6
}

/// The world view after a pass over the loaded chunks of `v` advances those counted after
/// `first` and up to `t`, with the coin tosses and draws `choices`.
pub open spec fn nearby_pass(
    v: Seq<Option<(Seq<Cell>, bool)>>,
    first: int,
    t: int,
    frame: u8,
    choices: Seq<(bool, usize)>,
) -> Seq<Option<(Seq<Cell>, bool)>> {
    nearby_steps(v, chunk_cells(counted_between(loaded_chunks(v), first, t)), frame, choices)
}

/// The world view after a frame of this pass over the loaded chunks of `v` advances those of
/// `nearby_schedule`, with the coin tosses and draws `choices`.
pub open spec fn nearby_frame(
    v: Seq<Option<(Seq<Cell>, bool)>>,
    first: int,
    t1: int,
    t2: int,
    frame: u8,
    choices: Seq<(bool, usize)>,
) -> Seq<Option<(Seq<Cell>, bool)>> {
    nearby_steps(v, chunk_cells(nearby_schedule(loaded_chunks(v), first, t1, t2)), frame, choices)
}

/// The ways a frame of this pass over `n` loaded chunks can end, from the count `first` at
/// which the frame before stopped: the first round, from `first` on, stops at `t1` when time
/// runs out (and the next frame resumes there), or goes through; then, when `first` was not
/// zero, a second round from the start stops at `t2` when time runs out, or goes through
/// to `first` (or to the last chunk), and the next frame starts from the beginning.
pub open spec fn nearby_outcome(n: int, first: int, t1: int, t2: int, next_first: int) -> bool {
    ||| 1 <= t1 && t2 == 0 && next_first == t1
    ||| t1 == n && first == 0 && t2 == 0 && next_first == 0
    ||| t1 == n && first != 0 && 1 <= t2 <= first && next_first == t2
    ||| t1 == n && first != 0 && t2 == (if first < n {
        first
    } else {
        n
    }) && next_first == 0
}

/// The clock readings `readings` (in microseconds since the frame began), one taken after each
/// of the `t` chunks a round counts, fit a round that stops at `t` because time ran out
/// (`ran_out`), or that ends at `t` for another reason: each reading is within `budget`, but
/// the last one of a round that ran out, which is past it.
pub open spec fn clock_stops(readings: Seq<u128>, t: int, ran_out: bool, budget: u128) -> bool {
    &&& readings.len() == t
    &&& forall|i: int| 0 <= i < t && !(ran_out && i == t - 1) ==> readings[i] <= budget
    &&& ran_out ==> 1 <= t && readings[t - 1] > budget
}

/// The ways a frame of this pass over `n` loaded chunks, from the count `first`, ends, told
/// by the clock readings of its two rounds (`r1`, `r2`) against the budget `budget`: the first
/// round stops at `t1` when a reading is past the budget (and the next frame resumes there),
/// or goes through; then, when `first` was not zero, the second round from the start stops at
/// `t2` when a reading is past the budget, or goes through to `first` (or to the last chunk),
/// and the next frame starts from the beginning.
pub open spec fn nearby_readings(
    n: int,
    first: int,
    t1: int,
    t2: int,
    next_first: int,
    r1: Seq<u128>,
    r2: Seq<u128>,
    budget: u128,
) -> bool {
    ||| clock_stops(r1, t1, true, budget) && t2 == 0 && r2.len() == 0 && next_first == t1
    ||| clock_stops(r1, t1, false, budget) && t1 == n && first == 0 && t2 == 0 && r2.len() == 0
        && next_first == 0
    ||| clock_stops(r1, t1, false, budget) && t1 == n && first != 0 && clock_stops(r2, t2, true, budget)
        && t2 <= first && next_first == t2
    ||| clock_stops(r1, t1, false, budget) && t1 == n && first != 0 && clock_stops(r2, t2, false, budget)
        && t2 == (if first < n {
        first
    } else {
        n
    }) && next_first == 0
}

/// Every loaded chunk of `v` lies in the box from `lo` to `hi`.
pub open spec fn boxed(v: Seq<Option<(Seq<Cell>, bool)>>, lo: MatrixIndex, hi: MatrixIndex) -> bool {
    forall|k: int| 0 <= k < v.len() && #[trigger] v[k] is Some ==> in_box(k, lo, hi)
}

/// No chunk is loaded before the first row of the box, nor left of it in that row.
proof fn lemma_box_start(v: Seq<Option<(Seq<Cell>, bool)>>, lo: MatrixIndex, hi: MatrixIndex)
    requires
        boxed(v, lo, hi),
    ensures
        loaded_before(v, 256 * lo.y + lo.x).len() == 0,
{
    let p = 256 * lo.y + lo.x;
    assert forall|k: int| 0 <= k < p && k < v.len() implies #[trigger] v[k] is None by {
        if v[k] is Some {
            assert(in_box(k, lo, hi));
        }
    }
    lemma_loaded_before_gap(v, 0, p);
}

/// No chunk is loaded right of the box in the row `y`, nor left of it in the row after.
proof fn lemma_row_gap(v: Seq<Option<(Seq<Cell>, bool)>>, lo: MatrixIndex, hi: MatrixIndex, y: int)
    requires
        boxed(v, lo, hi),
        0 <= y < 256,
    ensures
        loaded_before(v, 256 * (y + 1) + lo.x) == loaded_before(v, 256 * y + hi.x + 1),
{
    let p = 256 * y + hi.x + 1;
    let q = 256 * (y + 1) + lo.x;
    assert forall|k: int| p <= k < q && k < v.len() implies #[trigger] v[k] is None by {
        if v[k] is Some {
            assert(in_box(k, lo, hi));
        }
    }
    lemma_loaded_before_gap(v, p, q);
}

/// No chunk is loaded below the last row of the box.
proof fn lemma_box_end(v: Seq<Option<(Seq<Cell>, bool)>>, lo: MatrixIndex, hi: MatrixIndex, y: int)
    requires
        boxed(v, lo, hi),
        v.len() == 65536,
        hi.y < y <= 256,
    ensures
        loaded_before(v, 256 * y + lo.x) == loaded_chunks(v),
{
    let p = 256 * y + lo.x;
    if p <= 65536 {
        assert forall|k: int| p <= k < 65536 && k < v.len() implies #[trigger] v[k] is None by {
            if v[k] is Some {
                assert(in_box(k, lo, hi));
            }
        }
        lemma_loaded_before_gap(v, p, 65536);
    } else {
        lemma_loaded_before_gap(v, 65536, p);
    }
}

impl ChunkMap {
    /// Exchanges the cells at `index` and `swap_index` when the first may take the place of
    /// the second; tells whether it did.
    pub fn try_swap_nearby(&mut self, voxel_world: &mut VoxelChunkMap, index: FullIndex, swap_index: FullIndex) -> (r:
        bool)
        requires
            old(self).consistent(old(voxel_world)),
        ensures
            final(self).consistent(final(voxel_world)),
            r == can_take(old(self)@, index, swap_index),
            final(self)@ == if r {
                exchanged(old(self)@, index, swap_index)
            } else {
                old(self)@
            },
            same_loaded(old(self)@, final(self)@),
            r ==> shapes_touched(
                old(voxel_world).chunks.matrix@,
                final(voxel_world).chunks.matrix@,
                swap_touch(old(self)@, index, swap_index),
            ),
            !r ==> *final(voxel_world) == *old(voxel_world),
    {
        let movable = match self.get(index) {
            Some(cell) => match self.get(swap_index) {
                Some(other) => {
                    proof {
                        lemma_cell_valid(*self, index);
                        lemma_cell_valid(*self, swap_index);
                    }
                    cell.can_displace(other)
                },
                None => false,
            },
            None => false,
        };
        if movable {
            self.swap(voxel_world, index, swap_index);
            true
        } else {
            proof {
                lemma_wf_view(*self);
            }
            false
        }
    }

    /// Tries the places `check` in order for the cell at `index`, and stops at the first it
    /// takes; the picture is then marked as changed.
    pub fn swap_from_nearby(
        &mut self,
        voxel_world: &mut VoxelChunkMap,
        index: FullIndex,
        modified: &mut ChunkMapModified,
        check: &[FullIndex],
    )
        requires
            old(self).consistent(old(voxel_world)),
        ensures
            final(self).consistent(final(voxel_world)),
            same_loaded(old(self)@, final(self)@),
            final(self)@ == first_move(old(self)@, index, check@),
            (exists|j: int| 0 <= j < check@.len() && #[trigger] can_take(old(self)@, index, check@[j]))
                ==> final(modified).visual_modified,
            !(exists|j: int| 0 <= j < check@.len() && #[trigger] can_take(old(self)@, index, check@[j]))
                ==> *final(modified) == *old(modified) && *final(voxel_world) == *old(voxel_world),
            shapes_marked(old(voxel_world).chunks.matrix@, final(voxel_world).chunks.matrix@),
    {
        let ghost w0 = self@;
        proof {
            lemma_wf_view(*self);
            assert(check@.subrange(0, check@.len() as int) =~= check@);
        }
        let mut i: usize = 0;
        while i < check.len()
            invariant
                self.consistent(voxel_world),
                self@ == w0,
                w0 == old(self)@,
                w0.len() == 65536,
                *modified == *old(modified),
                *voxel_world == *old(voxel_world),
                i <= check@.len(),
                forall|k: int| 0 <= k < i ==> !can_take(w0, index, #[trigger] check@[k]),
                first_move(w0, index, check@) == first_move(w0, index, check@.subrange(i as int, check@.len() as int)),
            decreases check@.len() - i,
        {
            proof {
                let rest = check@.subrange(i as int, check@.len() as int);
                assert(rest[0] == check@[i as int]);
                assert(rest.drop_first() =~= check@.subrange(i + 1, check@.len() as int));
            }
            if self.try_swap_nearby(voxel_world, index, check[i]) {
                modified.visual_modified = true;
                proof {
                    assert(can_take(w0, index, check@[i as int]));
                    lemma_touched_marked(
                        old(voxel_world).chunks.matrix@,
                        voxel_world.chunks.matrix@,
                        swap_touch(w0, index, check@[i as int]),
                    );
                }
                return;
            }
            i = i + 1;
        }
        proof {
            assert(same_loaded(w0, w0));
            assert(check@.subrange(i as int, check@.len() as int) =~= Seq::<FullIndex>::empty());
        }
    }
}

/// Whether the place `(dx, dy)` away from `i` lies in the world.
fn place_in_world(i: FullIndex, dx: i8, dy: i8) -> (r: bool)
    ensures
        r == in_world(i, dx as int, dy as int),
{
    let (x, y) = i.to_u16();
    let nx: i32 = x as i32 + dx as i32;
    let ny: i32 = y as i32 + dy as i32;
    0 <= nx && nx <= 65535 && 0 <= ny && ny <= 65535
}

/// The index `(dx, dy)` away from `i`, computed by the index's own offsets.
fn step(i: FullIndex, dx: i8, dy: i8) -> (r: FullIndex)
    requires
        -1 <= dx <= 1,
        -1 <= dy <= 1,
        0 <= i.world_x() + dx <= 65535,
        0 <= i.world_y() + dy <= 65535,
    ensures
        r == offset(i, dx as int, dy as int),
{
    proof {
        lemma_offset_moves_world_position(i, (1, 0));
        lemma_offset_moves_world_position(i, (0, 0));
        lemma_world_coordinates_roundtrip(i, 0, 0);
    }
    let a = if dx > 0 {
        i + (1u8, 0u8)
    } else if dx < 0 {
        i - (1u8, 0u8)
    } else {
        i
    };
    proof {
        lemma_offset_moves_world_position(a, (0, 1));
        lemma_world_coordinates_roundtrip(a, 0, 0);
    }
    let b = if dy > 0 {
        a + (0u8, 1u8)
    } else if dy < 0 {
        a - (0u8, 1u8)
    } else {
        a
    };
    proof {
        lemma_world_coordinates_roundtrip(b, 0, 0);
    }
    b
}

impl ChunkMap {
    /// Advances the cell at `index` by one frame of this pass, unless it was already
    /// advanced in frame `frame`: a liquid, a granular cell or a gas tries the places of its
    /// kind (picked with `rand`) and takes the first it may.
    pub fn simulate_cell_nearby(
        &mut self,
        voxel_world: &mut VoxelChunkMap,
        index: FullIndex,
        modified: &mut ChunkMapModified,
        frame: u8,
        rand: &mut WorldRand,
    )
        requires
            old(self).consistent(old(voxel_world)),
            fits_nearby(old(self)@, index, frame),
        ensures
            final(self).consistent(final(voxel_world)),
            same_loaded(old(self)@, final(self)@),
            old(modified).visual_modified ==> final(modified).visual_modified,
            !nearby_draws(old(self)@, index, frame) ==> *final(rand) == *old(rand) && *final(modified)
                == *old(modified) && *final(voxel_world) == *old(voxel_world),
            shapes_marked(old(voxel_world).chunks.matrix@, final(voxel_world).chunks.matrix@),
            exists|coin: bool, roll: usize|
                {
                    &&& roll < 6
                    &&& final(self)@ == #[trigger] nearby_step(old(self)@, index, frame, coin, roll)
                    &&& final(modified).visual_modified == (old(modified).visual_modified || nearby_moves(
                        old(self)@,
                        index,
                        frame,
                        coin,
                        roll,
                    ))
                },
    {
        let c = match self.get(index) {
            Some(c) => *c,
            None => {
                proof {
                    lemma_wf_view(*self);
                    assert(self@ == nearby_step(old(self)@, index, frame, false, 0));
                }
                return;
            },
        };
        proof {
            lemma_cell_valid(*self, index);
            lemma_wf_view(*self);
        }
        if c.last_changed == frame {
            proof {
                assert(self@ == nearby_step(old(self)@, index, frame, false, 0));
            }
            return;
        }
        let mut c1 = c;
        c1.last_changed = frame;
        self.replace_cell(voxel_world, index, c1);
        let ghost w1 = self@;
        let ghost w0 = old(self)@;
        let kind = c1.cell_type();
        match kind {
            CellType::Liquid => {
                let coin = rand.half();
                let check = if coin {
                    vec![step(index, 0, -1), step(index, 1, -1), step(index, -1, -1), step(index, 1, 0), step(index, -1, 0)]
                } else {
                    vec![step(index, 0, -1), step(index, -1, -1), step(index, 1, -1), step(index, -1, 0), step(index, 1, 0)]
                };
                proof {
                    assert(check@ =~= nearby_list(kind, index, coin, 0));
                }
                self.swap_from_nearby(voxel_world, index, modified, check.as_slice());
                proof {
                    assert(self@ == nearby_step(old(self)@, index, frame, coin, 0));
                    lemma_same_loaded_trans(w0, w1, self@);
                }
            },
            CellType::Granular => {
                let coin = rand.half();
                let check = if coin {
                    vec![step(index, 0, -1), step(index, 1, -1), step(index, -1, -1)]
                } else {
                    vec![step(index, 0, -1), step(index, -1, -1), step(index, 1, -1)]
                };
                proof {
                    assert(check@ =~= nearby_list(kind, index, coin, 0));
                }
                self.swap_from_nearby(voxel_world, index, modified, check.as_slice());
                proof {
                    assert(self@ == nearby_step(old(self)@, index, frame, coin, 0));
                    lemma_same_loaded_trans(w0, w1, self@);
                }
            },
            CellType::Gas => {
                let roll = rand.gas();
                let (dx, dy): (i8, i8) = if roll == 0 {
                    (-1, 1)
                } else if roll == 1 {
                    (0, 1)
                } else if roll == 2 {
                    (1, 1)
                } else if roll == 3 {
                    (-1, 0)
                } else if roll == 4 {
                    (0, 0)
                } else {
                    (1, 0)
                };
                let check = if place_in_world(index, dx, dy) {
                    vec![step(index, dx, dy)]
                } else {
                    Vec::new()
                };
                proof {
                    assert(check@ =~= nearby_list(kind, index, false, roll));
                }
                self.swap_from_nearby(voxel_world, index, modified, check.as_slice());
                proof {
                    assert(self@ == nearby_step(old(self)@, index, frame, false, roll));
                    lemma_same_loaded_trans(w0, w1, self@);
                }
            },
            _ => {
                proof {
                    assert(nearby_list(c.kind(), index, false, 0) =~= Seq::<FullIndex>::empty());
                    assert(self@ == nearby_step(old(self)@, index, frame, false, 0));
                }
            },
        }
    }
}

impl ChunkMap {
    /// Advances every cell of the chunk at `chunk_index` by one frame of this pass, row by
    /// row from the top; even rows are walked left to right and odd rows right to left.
    pub fn simulate_chunk_nearby(
        &mut self,
        voxel_world: &mut VoxelChunkMap,
        chunk_index: MatrixIndex,
        modified: &mut ChunkMapModified,
        frame: u8,
        rand: &mut WorldRand,
    )
        requires
            old(self).consistent(old(voxel_world)),
            forall|q: FullIndex| q.chunk_index == chunk_index ==> #[trigger] fits_nearby(old(self)@, q, frame),
        ensures
            forall|q: FullIndex|
                q.chunk_index != chunk_index && fits_nearby(old(self)@, q, frame) ==> #[trigger] fits_nearby(
                    final(self)@,
                    q,
                    frame,
                ),
            final(self).consistent(final(voxel_world)),
            same_loaded(old(self)@, final(self)@),
            old(modified).visual_modified ==> final(modified).visual_modified,
            shapes_marked(old(voxel_world).chunks.matrix@, final(voxel_world).chunks.matrix@),
            exists|choices: Seq<(bool, usize)>|
                {
                    &&& choices.len() == 65536
                    &&& forall|i: int| 0 <= i < 65536 ==> (#[trigger] choices[i]).1 < 6
                    &&& final(self)@ == #[trigger] nearby_steps(old(self)@, nearby_order(chunk_index), frame, choices)
                },
    {
        let ghost w0 = self@;
        let ghost vm0 = voxel_world.chunks.matrix@;
        let ghost order = nearby_order(chunk_index);
        let ghost mut choices: Seq<(bool, usize)> = Seq::empty();
        proof {
            lemma_wf_view(*self);
            assert(order.take(0) =~= Seq::<FullIndex>::empty());
        }
        let mut y: u16 = 256;
        while y > 0
            invariant
                self.consistent(voxel_world),
                same_loaded(w0, self@),
                shapes_marked(vm0, voxel_world.chunks.matrix@),
                w0.len() == 65536,
                forall|q: FullIndex| q.chunk_index == chunk_index ==> #[trigger] fits_nearby(w0, q, frame),
                forall|q: FullIndex|
                    (q.chunk_index != chunk_index || q.cell_index.y < y) && fits_nearby(w0, q, frame)
                        ==> #[trigger] fits_nearby(self@, q, frame),
                y <= 256,
                order == nearby_order(chunk_index),
                choices.len() == 256 * (256 - y),
                forall|i: int| 0 <= i < choices.len() ==> (#[trigger] choices[i]).1 < 6,
                self@ == nearby_steps(w0, order.take(256 * (256 - y)), frame, choices),
                old(modified).visual_modified ==> modified.visual_modified,
            decreases y,
        {
            y = y - 1;
            let mut x: u16 = 0;
            while x <= 255
                invariant
                    self.consistent(voxel_world),
                    same_loaded(w0, self@),
                    shapes_marked(vm0, voxel_world.chunks.matrix@),
                    w0.len() == 65536,
                    forall|q: FullIndex| q.chunk_index == chunk_index ==> #[trigger] fits_nearby(w0, q, frame),
                    forall|q: FullIndex|
                        (q.chunk_index != chunk_index || q.cell_index.y < y || (q.cell_index.y == y && row_place(
                            y as int,
                            q.cell_index.x as int,
                        ) >= x)) && fits_nearby(w0, q, frame) ==> #[trigger] fits_nearby(self@, q, frame),
                    y <= 255,
                    x <= 256,
                    order == nearby_order(chunk_index),
                    choices.len() == 256 * (255 - y) + x,
                    forall|i: int| 0 <= i < choices.len() ==> (#[trigger] choices[i]).1 < 6,
                    self@ == nearby_steps(w0, order.take(256 * (255 - y) + x), frame, choices),
                    old(modified).visual_modified ==> modified.visual_modified,
                decreases 256 - x,
            {
                let cx: u16 = if y % 2 == 0 {
                    x
                } else {
                    255 - x
                };
                let index = FullIndex {
                    cell_index: MatrixIndex { x: cx as u8, y: y as u8 },
                    chunk_index,
                };
                let ghost k = 256 * (255 - y) + x;
                proof {
                    assert(k / 256 == 255 - y && k % 256 == x) by (nonlinear_arith)
                        requires
                            k == 256 * (255 - y) + x,
                            0 <= x < 256,
                            y <= 255,
                    ;
                    assert(order[k] == index);
                }
                let ghost v = self@;
                let ghost vm = voxel_world.chunks.matrix@;
                proof {
                    assert(row_place(y as int, cx as int) == x);
                    assert(fits_nearby(w0, index, frame));
                    lemma_wf_view(*self);
                    assert(full_chunks(v));
                }
                self.simulate_cell_nearby(voxel_world, index, modified, frame, rand);
                proof {
                    lemma_marked_trans(vm0, vm, voxel_world.chunks.matrix@);
                    let (cc, rr) = choose|coin: bool, roll: usize|
                        roll < 6 && self@ == #[trigger] nearby_step(v, index, frame, coin, roll);
                    assert forall|q: FullIndex|
                        (q.chunk_index != chunk_index || q.cell_index.y < y || (q.cell_index.y == y && row_place(
                            y as int,
                            q.cell_index.x as int,
                        ) >= x + 1)) && fits_nearby(w0, q, frame) implies #[trigger] fits_nearby(self@, q, frame) by {
                        assert(fits_nearby(v, q, frame));
                        assert(q != index);
                        lemma_nearby_step_keeps_fits(v, index, frame, cc, rr, q);
                    }
                    let old_choices = choices;
                    choices = choices.push((cc, rr));
                    assert(order.take(k + 1).drop_last() =~= order.take(k));
                    assert(order.take(k + 1).last() == order[k]);
                    assert(choices.drop_last() =~= old_choices);
                    lemma_same_loaded_trans(w0, v, self@);
                }
                x = x + 1;
            }
        }
        proof {
            assert(order.take(65536) =~= order);
        }
    }

    /// Advances the loaded chunks in turn, in row-major order, counting them from one: those
    /// counted after `first_chunk` (and not after `upto`) are advanced. After each chunk
    /// counted, once the time since `tmr` passes the budget, the count reached is kept in
    /// `first_chunk` and `true` tells that time ran out; otherwise `false`, once the count
    /// would pass `upto` or every chunk is counted. The clock decides where the pass stops:
    /// whatever it reads after each chunk counted (`readings`), the chunks advanced are those
    /// counted after `first_chunk` and up to the stop `t`, in order, and the pass stops for
    /// time exactly at the first reading past `TIME_ALLOCATED`.
    fn go_through_chunks<const TIME_ALLOCATED: u128>(
        &mut self,
        voxel_world: &mut VoxelChunkMap,
        modified: &mut ChunkMapModified,
        frame: u8,
        first_chunk: &mut usize,
        upto: usize,
        tmr: &Instant,
        rand: &mut WorldRand,
    ) -> (r: bool)
        requires
            old(self).consistent(old(voxel_world)),
            forall|q: FullIndex|
                nearby_due(loaded_chunks(old(self)@), *old(first_chunk) as int, upto as int, q.chunk_index)
                    ==> #[trigger] fits_nearby(old(self)@, q, frame),
        ensures
            forall|q: FullIndex|
                fits_nearby(old(self)@, q, frame) && (*old(first_chunk) < loaded_chunks(old(self)@).len()
                    ==> q.chunk_index.flat() < loaded_chunks(old(self)@)[*old(first_chunk) as int].flat())
                    ==> #[trigger] fits_nearby(final(self)@, q, frame),
            final(self).consistent(final(voxel_world)),
            same_loaded(old(self)@, final(self)@),
            old(modified).visual_modified ==> final(modified).visual_modified,
            shapes_marked(old(voxel_world).chunks.matrix@, final(voxel_world).chunks.matrix@),
            exists|t: int, choices: Seq<(bool, usize)>, readings: Seq<u128>|
                {
                    &&& 0 <= t <= loaded_chunks(old(self)@).len()
                    &&& #[trigger] clock_stops(readings, t, r, TIME_ALLOCATED)
                    &&& r ==> 1 <= t <= upto && *final(first_chunk) == t
                    &&& !r ==> *final(first_chunk) == *old(first_chunk) && t == if upto < loaded_chunks(
                        old(self)@,
                    ).len() {
                        upto as int
                    } else {
                        loaded_chunks(old(self)@).len() as int
                    }
                    &&& choices_fit(choices, counted_between(loaded_chunks(old(self)@), *old(first_chunk) as int, t))
                    &&& final(self)@ == #[trigger] nearby_pass(old(self)@, *old(first_chunk) as int, t, frame, choices)
                },
    {
        let ghost w0 = self@;
        let ghost vm0 = voxel_world.chunks.matrix@;
        let ghost lo = self.chunks.min_elem;
        let ghost hi = self.chunks.max_elem;
        let ghost l = loaded_chunks(w0);
        let ghost f = *first_chunk as int;
        let ghost mut choices: Seq<(bool, usize)> = Seq::empty();
        let ghost mut readings: Seq<u128> = Seq::empty();
        proof {
            lemma_wf_view(*self);
            assert forall|k: int| 0 <= k < w0.len() && #[trigger] w0[k] is Some implies in_box(k, lo, hi) by {
                assert(filled(self.chunks.matrix@, k));
            }
            lemma_box_start(w0, lo, hi);
            lemma_loaded_before_len(w0, 65536);
            assert(counted_between(l, f, 0) =~= Seq::<MatrixIndex>::empty());
            assert(nearby_steps(w0, chunk_cells(Seq::<MatrixIndex>::empty()), frame, choices) == w0);
            if lo.y <= hi.y {
                if !(exists|q: int| filled(self.chunks.matrix@, q)) {
                    assert forall|q: int| 0 <= q < 65536 implies self.chunks.matrix@[q] is None by {
                        assert(!filled(self.chunks.matrix@, q));
                    }
                }
                let q = choose|q: int| filled(self.chunks.matrix@, q);
                assert(in_box(q, lo, hi));
            }
        }
        let min_x: u16 = self.chunks.min_elem.x as u16;
        let max_x: u16 = self.chunks.max_elem.x as u16;
        let min_y: u16 = self.chunks.min_elem.y as u16;
        let max_y: u16 = self.chunks.max_elem.y as u16;
        let mut k: usize = 0;
        let mut y: u16 = min_y;
        while y <= max_y
            invariant
                self.consistent(voxel_world),
                same_loaded(w0, self@),
                shapes_marked(vm0, voxel_world.chunks.matrix@),
                vm0 == old(voxel_world).chunks.matrix@,
                w0.len() == 65536,
                forall|q: FullIndex|
                    nearby_due(l, f, upto as int, q.chunk_index) ==> #[trigger] fits_nearby(w0, q, frame),
                forall|q: FullIndex|
                    fits_nearby(w0, q, frame) && (q.chunk_index.flat() >= 256 * y + min_x || (f < l.len()
                        && q.chunk_index.flat() < l[f].flat())) ==> #[trigger] fits_nearby(self@, q, frame),
                f >= l.len() ==> self@ == w0,
                boxed(w0, lo, hi),
                min_x == lo.x && max_x == hi.x && min_y == lo.y && max_y == hi.y,
                w0 == old(self)@,
                l == loaded_chunks(w0),
                l.len() <= 65536,
                f == *old(first_chunk),
                min_y <= y <= 256,
                min_y <= max_y ==> min_x <= max_x,
                k as int == loaded_before(w0, 256 * y + min_x).len(),
                k <= upto,
                choices.len() == 65536 * counted_between(l, f, k as int).len(),
                forall|i: int| 0 <= i < choices.len() ==> (#[trigger] choices[i]).1 < 6,
                self@ == nearby_steps(w0, chunk_cells(counted_between(l, f, k as int)), frame, choices),
                *first_chunk == *old(first_chunk),
                old(modified).visual_modified ==> modified.visual_modified,
                clock_stops(readings, k as int, false, TIME_ALLOCATED),
            decreases 256 - y,
        {
            let mut x: u16 = min_x;
            while x <= max_x
                invariant
                    self.consistent(voxel_world),
                    same_loaded(w0, self@),
                    shapes_marked(vm0, voxel_world.chunks.matrix@),
                vm0 == old(voxel_world).chunks.matrix@,
                    w0.len() == 65536,
                    forall|q: FullIndex|
                        nearby_due(l, f, upto as int, q.chunk_index) ==> #[trigger] fits_nearby(w0, q, frame),
                    forall|q: FullIndex|
                        fits_nearby(w0, q, frame) && (q.chunk_index.flat() >= 256 * y + x || (f < l.len()
                            && q.chunk_index.flat() < l[f].flat())) ==> #[trigger] fits_nearby(self@, q, frame),
                    f >= l.len() ==> self@ == w0,
                    boxed(w0, lo, hi),
                    min_x == lo.x && max_x == hi.x && min_y == lo.y && max_y == hi.y,
                    w0 == old(self)@,
                    l == loaded_chunks(w0),
                    l.len() <= 65536,
                    f == *old(first_chunk),
                    y <= max_y,
                    min_x <= x <= max_x + 1,
                    k as int == loaded_before(w0, 256 * y + x).len(),
                    k <= upto,
                    choices.len() == 65536 * counted_between(l, f, k as int).len(),
                    forall|i: int| 0 <= i < choices.len() ==> (#[trigger] choices[i]).1 < 6,
                    self@ == nearby_steps(w0, chunk_cells(counted_between(l, f, k as int)), frame, choices),
                    *first_chunk == *old(first_chunk),
                    old(modified).visual_modified ==> modified.visual_modified,
                    clock_stops(readings, k as int, false, TIME_ALLOCATED),
                decreases 256 - x,
            {
                let chunk_index = MatrixIndex { x: x as u8, y: y as u8 };
                let ghost pos = 256 * y + x;
                proof {
                    lemma_flatten_roundtrip(chunk_index, 0);
                    assert(chunk_index.flat() == pos);
                    assert(w0[pos] is Some <==> self@[pos] is Some);
                }
                if self.index(chunk_index).is_some() {
                    proof {
                        lemma_loaded_before_prefix(w0, pos + 1, 65536);
                        assert(loaded_before(w0, pos + 1) == loaded_before(w0, pos).push(chunk_index));
                        assert(l.subrange(0, k + 1) == loaded_before(w0, pos + 1));
                        assert(l.subrange(0, k + 1)[k as int] == l[k as int]);
                        assert(l[k as int] == chunk_index);
                        lemma_loaded_before_sorted(w0, 65536);
                        lemma_loaded_before_len(w0, pos);
                        lemma_loaded_before_prefix(w0, pos, 65536);
                    }
                    let ghost before = counted_between(l, f, k as int);
                    let ghost after = counted_between(l, f, k + 1);
                    proof {
                        if f <= k {
                            assert(after =~= before.push(chunk_index));
                        } else {
                            assert(after =~= before);
                        }
                    }
                    k = k + 1;
                    if k > upto {
                        proof {
                            assert(k - 1 == upto && upto < l.len());
                            assert(self@ == nearby_pass(w0, f, k - 1, frame, choices));
                            assert(clock_stops(readings, k - 1, false, TIME_ALLOCATED));
                        }
                        return false;
                    }
                    if k > *first_chunk {
                        let ghost v = self@;
                        let ghost vm = voxel_world.chunks.matrix@;
                        proof {
                            assert forall|q: FullIndex| q.chunk_index == chunk_index implies #[trigger] fits_nearby(
                                v,
                                q,
                                frame,
                            ) by {
                                assert(nearby_due(l, f, upto as int, q.chunk_index)) by {
                                    assert(l[k - 1] == q.chunk_index);
                                }
                                lemma_flatten_roundtrip(q.chunk_index, 0);
                            }
                            if f < l.len() {
                                assert(l[f].flat() <= l[k - 1].flat());
                            }
                        }
                        self.simulate_chunk_nearby(voxel_world, chunk_index, modified, frame, rand);
                        proof {
                            assert forall|q: FullIndex|
                                fits_nearby(w0, q, frame) && (q.chunk_index.flat() >= 256 * y + x + 1 || (f < l.len()
                                    && q.chunk_index.flat() < l[f].flat())) implies #[trigger] fits_nearby(
                                self@,
                                q,
                                frame,
                            ) by {
                                lemma_flatten_order(q.chunk_index, chunk_index);
                                assert(fits_nearby(v, q, frame));
                            }
                            lemma_marked_trans(vm0, vm, voxel_world.chunks.matrix@);
                            lemma_same_loaded_trans(w0, v, self@);
                            let ch = choose|ch: Seq<(bool, usize)>|
                                {
                                    &&& ch.len() == 65536
                                    &&& forall|i: int| 0 <= i < 65536 ==> (#[trigger] ch[i]).1 < 6
                                    &&& self@ == #[trigger] nearby_steps(v, nearby_order(chunk_index), frame, ch)
                                };
                            lemma_chunk_cells_len(before);
                            assert(after.drop_last() =~= before);
                            assert(chunk_cells(after) == chunk_cells(before) + nearby_order(chunk_index));
                            lemma_nearby_steps_append(w0, chunk_cells(before), nearby_order(chunk_index), frame, choices, ch);
                            choices = choices + ch;
                        }
                    }
                    let micros = as_micros(&elapsed(tmr));
                    proof {
                        readings = readings.push(micros);
                    }
                    if micros > TIME_ALLOCATED {
                        *first_chunk = k;
                        proof {
                            assert(self@ == nearby_pass(w0, f, k as int, frame, choices));
                            assert(clock_stops(readings, k as int, true, TIME_ALLOCATED));
                        }
                        return true;
                    }
                }
                x = x + 1;
            }
            proof {
                lemma_row_gap(w0, lo, hi, y as int);
            }
            y = y + 1;
        }
        proof {
            lemma_box_end(w0, lo, hi, y as int);
            assert(self@ == nearby_pass(w0, f, k as int, frame, choices));
            assert(clock_stops(readings, k as int, false, TIME_ALLOCATED));
        }
        false
    }

    /// Advances the loaded chunks by one frame of this pass while the time budget
    /// `TIME_ALLOCATED` (in microseconds) lasts: a frame resumes after the chunk at which the
    /// frame before ran out of time, and, once it reaches the last chunk in time, goes on with
    /// the chunks it skipped. The clock decides where each of the two rounds stops; whatever
    /// it reads (`r1` and `r2`, one reading after each chunk counted), the chunks advanced are
    /// those of `nearby_schedule`, a round stops for time at its first reading past
    /// `TIME_ALLOCATED`, and `first_chunk` tells where the next frame resumes.
    pub fn simulate_nearby<const TIME_ALLOCATED: u128>(
        &mut self,
        voxel_world: &mut VoxelChunkMap,
        modified: &mut ChunkMapModified,
        frame: u8,
        first_chunk: &mut usize,
    )
        requires
            old(self).consistent(old(voxel_world)),
            forall|q: FullIndex| #[trigger] fits_nearby(old(self)@, q, frame),
        ensures
            final(self).consistent(final(voxel_world)),
            same_loaded(old(self)@, final(self)@),
            old(modified).visual_modified ==> final(modified).visual_modified,
            shapes_marked(old(voxel_world).chunks.matrix@, final(voxel_world).chunks.matrix@),
            exists|t1: int, t2: int, choices: Seq<(bool, usize)>, r1: Seq<u128>, r2: Seq<u128>|
                {
                    &&& #[trigger] nearby_readings(
                        loaded_chunks(old(self)@).len() as int,
                        *old(first_chunk) as int,
                        t1,
                        t2,
                        *final(first_chunk) as int,
                        r1,
                        r2,
                        TIME_ALLOCATED,
                    )
                    &&& 0 <= t1 <= loaded_chunks(old(self)@).len()
                    &&& 0 <= t2 <= loaded_chunks(old(self)@).len()
                    &&& choices_fit(
                        choices,
                        nearby_schedule(loaded_chunks(old(self)@), *old(first_chunk) as int, t1, t2),
                    )
                    &&& final(self)@ == #[trigger] nearby_frame(old(self)@, *old(first_chunk) as int, t1, t2, frame, choices)
                    &&& nearby_outcome(
                        loaded_chunks(old(self)@).len() as int,
                        *old(first_chunk) as int,
                        t1,
                        t2,
                        *final(first_chunk) as int,
                    )
                },
    {
        let ghost w0 = self@;
        let ghost vm0 = voxel_world.chunks.matrix@;
        let ghost l = loaded_chunks(w0);
        let ghost f0 = *first_chunk as int;
        let mut rand = WorldRand::default();
        let tmr = now();
        let ran_out = self.go_through_chunks::<TIME_ALLOCATED>(
            voxel_world,
            modified,
            frame,
            first_chunk,
            usize::MAX,
            &tmr,
            &mut rand,
        );
        let ghost (t1, ch1, r1) = choose|t: int, choices: Seq<(bool, usize)>, readings: Seq<u128>|
            {
                &&& 0 <= t <= l.len()
                &&& #[trigger] clock_stops(readings, t, ran_out, TIME_ALLOCATED)
                &&& ran_out ==> 1 <= t <= usize::MAX && *first_chunk == t
                &&& !ran_out ==> *first_chunk == f0 && t == if usize::MAX < l.len() {
                    usize::MAX as int
                } else {
                    l.len() as int
                }
                &&& choices_fit(choices, counted_between(l, f0, t))
                &&& self@ == #[trigger] nearby_pass(w0, f0, t, frame, choices)
            };
        proof {
            lemma_loaded_before_len(w0, 65536);
            assert(counted_between(l, 0, 0) =~= Seq::<MatrixIndex>::empty());
            assert(nearby_schedule(l, f0, t1, 0) =~= counted_between(l, f0, t1));
        }
        if ran_out {
            proof {
                assert(self@ == nearby_frame(w0, f0, t1, 0, frame, ch1));
                assert(nearby_readings(l.len() as int, f0, t1, 0, *first_chunk as int, r1, Seq::empty(), TIME_ALLOCATED));
            }
            return;
        }
        if *first_chunk != 0 {
            let upto = *first_chunk;
            *first_chunk = 0;
            let ghost v = self@;
            let ghost vm = voxel_world.chunks.matrix@;
            proof {
                lemma_loaded_before_sorted(w0, 65536);
                assert forall|q: FullIndex| nearby_due(loaded_chunks(v), 0, upto as int, q.chunk_index) implies #[trigger] fits_nearby(
                    v,
                    q,
                    frame,
                ) by {
                    lemma_loaded_before_same(w0, v, 65536);
                    assert(fits_nearby(w0, q, frame));
                    if f0 < l.len() {
                        let j = choose|j: int| 0 <= j < upto && 0 <= j < l.len() && l[j] == q.chunk_index;
                        assert(l[j].flat() < l[f0].flat());
                    }
                }
                lemma_loaded_before_same(w0, v, 65536);
            }
            let ran_out2 = self.go_through_chunks::<TIME_ALLOCATED>(
                voxel_world,
                modified,
                frame,
                first_chunk,
                upto,
                &tmr,
                &mut rand,
            );
            proof {
                lemma_same_loaded_trans(w0, v, self@);
                lemma_marked_trans(vm0, vm, voxel_world.chunks.matrix@);
                let (t2, ch2, r2) = choose|t: int, choices: Seq<(bool, usize)>, readings: Seq<u128>|
                    {
                        &&& 0 <= t <= loaded_chunks(v).len()
                        &&& #[trigger] clock_stops(readings, t, ran_out2, TIME_ALLOCATED)
                        &&& ran_out2 ==> 1 <= t <= upto && *first_chunk == t
                        &&& !ran_out2 ==> *first_chunk == 0 && t == if upto < loaded_chunks(v).len() {
                            upto as int
                        } else {
                            loaded_chunks(v).len() as int
                        }
                        &&& choices_fit(choices, counted_between(loaded_chunks(v), 0, t))
                        &&& self@ == #[trigger] nearby_pass(v, 0, t, frame, choices)
                    };
                let a = counted_between(l, f0, t1);
                let b = counted_between(l, 0, t2);
                lemma_chunk_cells_len(a);
                lemma_chunk_cells_len(b);
                lemma_chunk_cells_append(a, b);
                lemma_nearby_steps_append(w0, chunk_cells(a), chunk_cells(b), frame, ch1, ch2);
                assert(nearby_schedule(l, f0, t1, t2) == a + b);
                let ch = ch1 + ch2;
                assert(choices_fit(ch, a + b)) by {
                    assert forall|i: int| 0 <= i < ch.len() implies (#[trigger] ch[i]).1 < 6 by {
                        if i < ch1.len() {
                            assert(ch[i] == ch1[i]);
                        } else {
                            assert(ch[i] == ch2[i - ch1.len()]);
                        }
                    }
                }
                assert(self@ == nearby_frame(w0, f0, t1, t2, frame, ch));
                assert(nearby_outcome(l.len() as int, f0, t1, t2, *first_chunk as int));
                assert(nearby_readings(l.len() as int, f0, t1, t2, *first_chunk as int, r1, r2, TIME_ALLOCATED));
            }
        } else {
            proof {
                assert(self@ == nearby_frame(w0, f0, t1, 0, frame, ch1));
                assert(nearby_readings(l.len() as int, f0, t1, 0, *first_chunk as int, r1, Seq::empty(), TIME_ALLOCATED));
            }
        }
    }
}

} // verus!
