use crate::cell::{Cell, CellId};
use crate::chunk::{Chunk, VoxelChunk};
use crate::chunk_map::{lemma_wf_view, ChunkMap, VoxelChunkMap};
use crate::matrix::{
    filled, in_box, lemma_flatten_roundtrip, lemma_rows_from_contains, row_from, rows_from, taken_at, MatrixIndex,
};
use crate::simulate_world::sample_range;
use crate::{CHUNK_AREA, CHUNK_HEIGHT, CHUNK_WIDTH};
use rand::rngs::SmallRng;
use vstd::prelude::*;

verus! {

/// The folder, under the game's preferences folder, that holds the saved chunks.
pub const WORLD_FOLDER: &'static str = "world";

/// `a / b` rounded up.
pub open spec fn ceil_div(a: int, b: int) -> int {
    (a + b - 1) / b
}

/// The chunks to keep loaded around the world position (`px`, `py`) seen through a window of
/// `width` by `height` cells: from the chunk holding (`px - width`, `py - height`) to the
/// chunk boundary at or after (`px + width`, `py + height`), both ends included.
pub fn load_range(px: u16, py: u16, width: u16, height: u16) -> (r: (MatrixIndex, MatrixIndex))
    requires
        width <= px,
        height <= py,
        ceil_div(px + width, CHUNK_WIDTH as int) <= 255,
        ceil_div(py + height, CHUNK_HEIGHT as int) <= 255,
    ensures
        r.0.x == (px - width) / CHUNK_WIDTH as int,
        r.0.y == (py - height) / CHUNK_HEIGHT as int,
        r.1.x == ceil_div(px + width, CHUNK_WIDTH as int),
        r.1.y == ceil_div(py + height, CHUNK_HEIGHT as int),
{
    let min_x = (px - width) as usize;
    let min_y = (py - height) as usize;
    let max_x = px as usize + width as usize;
    let max_y = py as usize + height as usize;
    let lo = MatrixIndex { x: (min_x / CHUNK_WIDTH) as u8, y: (min_y / CHUNK_HEIGHT) as u8 };
    let hi = MatrixIndex {
        x: ((max_x + CHUNK_WIDTH - 1) / CHUNK_WIDTH) as u8,
        y: ((max_y + CHUNK_HEIGHT - 1) / CHUNK_HEIGHT) as u8,
    };
    (lo, hi)
}

/// Whether the chunk at `i` lies outside the rectangle from `lo` to `hi` (both included).
pub fn outside_range(i: MatrixIndex, lo: MatrixIndex, hi: MatrixIndex) -> (r: bool)
    ensures
        r == !(lo.x <= i.x <= hi.x && lo.y <= i.y <= hi.y),
{
    i.x < lo.x || i.y < lo.y || i.x > hi.x || i.y > hi.y
}

/// The chunk at `i` lies outside the rectangle from `lo` to `hi` (both included).
pub open spec fn outside(i: MatrixIndex, lo: MatrixIndex, hi: MatrixIndex) -> bool {
    !(lo.x <= i.x <= hi.x && lo.y <= i.y <= hi.y)
}

impl ChunkMap {
    /// Unloads every chunk outside the rectangle from `lo` to `hi` (both included), with its
    /// collision shape, and hands them back in row-major order, each with its place and the
    /// collider its shape had. Every place of the stored bounds outside the rectangle must hold
    /// a chunk.
    #[verifier::rlimit(60)]
    #[verifier::spinoff_prover]
    pub fn take_outside(&mut self, voxel_world: &mut VoxelChunkMap, lo: MatrixIndex, hi: MatrixIndex) -> (r: Vec<
        (MatrixIndex, Chunk, Option<u64>),
    >)
        requires
            old(self).consistent(old(voxel_world)),
            forall|i: MatrixIndex|
                in_box(i.flat(), old(self).chunks.min_elem, old(self).chunks.max_elem) && outside(i, lo, hi)
                    ==> #[trigger] old(self)@[i.flat()] is Some,
        ensures
            final(self).consistent(final(voxel_world)),
            forall|k: int|
                0 <= k < 65536 ==> #[trigger] final(self)@[k] == if outside(MatrixIndex::unflat(k), lo, hi) {
                    None
                } else {
                    old(self)@[k]
                },
            forall|k: int|
                0 <= k < 65536 && !outside(MatrixIndex::unflat(k), lo, hi)
                    ==> #[trigger] final(voxel_world).chunks.matrix@[k] == old(voxel_world).chunks.matrix@[k],
            forall|i: int|
                0 <= i < r@.len() ==> {
                    &&& outside((#[trigger] r@[i]).0, lo, hi)
                    &&& old(self)@[r@[i].0.flat()] == Some((r@[i].1.cells@, r@[i].1.skip_simulation))
                    &&& r@[i].1.wf()
                    &&& r@[i].2 == old(voxel_world).chunks.matrix@[r@[i].0.flat()].unwrap().collider
                },
            forall|i: int, j: int| 0 <= i < j < r@.len() ==> (#[trigger] r@[i]).0.flat() < (#[trigger] r@[j]).0.flat(),
            forall|k: int|
                0 <= k < 65536 && #[trigger] old(self)@[k] is Some && outside(MatrixIndex::unflat(k), lo, hi)
                    ==> exists|i: int| 0 <= i < r@.len() && (#[trigger] r@[i]).0.flat() == k,
    {
        let ghost w0 = *self;
        let ghost o = self.chunks.matrix@;
        let ghost v0 = voxel_world.chunks.matrix@;
        let leaves = |i: MatrixIndex| -> (b: bool)
            ensures
                b == outside(i, lo, hi),
            { outside_range(i, lo, hi) };
        proof {
            lemma_wf_view(*self);
            assert forall|i: MatrixIndex|
                in_box(i.flat(), w0.chunks.min_elem, w0.chunks.max_elem) && call_ensures(leaves, (i,), true) implies #[trigger] w0.chunks.at(i) is Some by {
                lemma_flatten_roundtrip(i, 0);
                assert(w0@[i.flat()] is Some);
            }
        }
        let mut taken = self.chunks.take_if(leaves);
        let ghost t0 = taken@;
        let ghost n = t0.len();
        proof {
            assert forall|k: int| 0 <= k < 65536 implies (taken_at(t0, k) <==> (w0@[k] is Some && outside(
                MatrixIndex::unflat(k),
                lo,
                hi,
            ))) by {
                if taken_at(t0, k) {
                    let i = choose|i: int| 0 <= i < t0.len() && (#[trigger] t0[i]).0.flat() == k;
                    lemma_flatten_roundtrip(t0[i].0, 0);
                } else if w0@[k] is Some {
                    assert(filled(o, k));
                }
            }
            assert forall|i: int| 0 <= i < n implies v0[(#[trigger] t0[i]).0.flat()] is Some by {
                lemma_flatten_roundtrip(t0[i].0, 0);
                assert(taken_at(t0, t0[i].0.flat()));
            }
        }
        let mut rev: Vec<(MatrixIndex, Chunk, Option<u64>)> = Vec::new();
        while taken.len() > 0
            invariant
                voxel_world.chunks.wf(),
                n == t0.len(),
                taken.len() <= n,
                taken@ == t0.take(taken.len() as int),
                rev.len() + taken.len() == n,
                forall|i: int, j: int| 0 <= i < j < n ==> (#[trigger] t0[i]).0.flat() < (#[trigger] t0[j]).0.flat(),
                forall|i: int| 0 <= i < n ==> v0[(#[trigger] t0[i]).0.flat()] is Some,
                forall|i: int| 0 <= i < n ==> 0 <= (#[trigger] t0[i]).0.flat() < 65536,
                forall|q: int|
                    0 <= q < rev.len() ==> #[trigger] rev@[q] == (t0[n - 1 - q].0, t0[n - 1 - q].1, v0[t0[n - 1
                        - q].0.flat()].unwrap().collider),
                forall|k: int|
                    0 <= k < 65536 ==> #[trigger] voxel_world.chunks.matrix@[k] == if taken_at(
                        t0.subrange(taken.len() as int, n as int),
                        k,
                    ) {
                        None
                    } else {
                        v0[k]
                    },
            decreases taken.len(),
        {
            let ghost m = taken.len() as int;
            let ghost vm = voxel_world.chunks.matrix@;
            let (i, chunk) = taken.pop().unwrap();
            proof {
                assert(t0[m - 1] == (i, chunk));
                let k = i.flat();
                if taken_at(t0.subrange(m, n as int), k) {
                    let q = choose|q: int|
                        0 <= q < n - m && (#[trigger] t0.subrange(m, n as int)[q]).0.flat() == k;
                    assert(t0.subrange(m, n as int)[q] == t0[m + q]);
                    assert(t0[m - 1].0.flat() < t0[m + q].0.flat());
                }
                assert(vm[k] == v0[k]);
            }
            let voxel = voxel_world.chunks.remove(i);
            proof {
                let k = i.flat();
                let s1 = t0.subrange(m - 1, n as int);
                let s0 = t0.subrange(m, n as int);
                assert forall|j: int| 0 <= j < 65536 implies (taken_at(s1, j) <==> (j == k || taken_at(s0, j))) by {
                    if taken_at(s1, j) {
                        let q = choose|q: int| 0 <= q < s1.len() && (#[trigger] s1[q]).0.flat() == j;
                        if q > 0 {
                            assert(s1[q] == s0[q - 1]);
                        }
                    }
                    if j == k {
                        assert(s1[0] == t0[m - 1]);
                    }
                    if taken_at(s0, j) {
                        let q = choose|q: int| 0 <= q < s0.len() && (#[trigger] s0[q]).0.flat() == j;
                        assert(s1[q + 1] == s0[q]);
                    }
                }
            }
            rev.push((i, chunk, voxel.collider));
            proof {
                assert(taken@ =~= t0.take(m - 1));
            }
        }
        let ghost rv = rev@;
        let mut r: Vec<(MatrixIndex, Chunk, Option<u64>)> = Vec::new();
        while rev.len() > 0
            invariant
                rv.len() == n,
                rev.len() <= n,
                rev@ == rv.take(rev.len() as int),
                r.len() + rev.len() == n,
                forall|q: int| 0 <= q < r.len() ==> #[trigger] r@[q] == rv[n - 1 - q],
            decreases rev.len(),
        {
            let ghost m = rev.len() as int;
            let e = rev.pop().unwrap();
            proof {
                assert(rv[m - 1] == e);
            }
            r.push(e);
            proof {
                assert(rev@ =~= rv.take(m - 1));
            }
        }
        proof {
            assert(t0.subrange(0, n as int) =~= t0);
            assert forall|i: int| 0 <= i < n implies #[trigger] r@[i] == (t0[i].0, t0[i].1, v0[t0[i].0.flat()].unwrap().collider) by {
                assert(r@[i] == rv[n - 1 - i]);
            }
            assert forall|k: int| 0 <= k < 65536 implies #[trigger] self@[k] == if outside(
                MatrixIndex::unflat(k),
                lo,
                hi,
            ) {
                None
            } else {
                w0@[k]
            } by {
                if taken_at(t0, k) {
                } else {
                    assert(self.chunks.matrix@[k] == o[k]);
                }
            }
            assert forall|k: int|
                0 <= k < 65536 && #[trigger] w0@[k] is Some && outside(MatrixIndex::unflat(k), lo, hi) implies exists|i: int|
                0 <= i < r@.len() && (#[trigger] r@[i]).0.flat() == k by {
                assert(taken_at(t0, k));
                let i = choose|i: int| 0 <= i < t0.len() && (#[trigger] t0[i]).0.flat() == k;
                assert(r@[i] == (t0[i].0, t0[i].1, v0[t0[i].0.flat()].unwrap().collider));
            }
            assert forall|j: int| #[trigger] filled(self.chunks.matrix@, j) implies self.chunks.matrix@[j].unwrap().wf() by {
                assert(filled(o, j));
            }
            assert forall|i: int| 0 <= i < n implies (#[trigger] t0[i]).1.wf() && w0@[t0[i].0.flat()] == Some((t0[i].1.cells@, t0[i].1.skip_simulation)) by {
                assert(filled(o, t0[i].0.flat()));
            }
        }
        r
    }
}

/// Some place of `places` is the flat position `k`.
pub open spec fn placed_at(places: Seq<MatrixIndex>, k: int) -> bool {
    exists|i: int| 0 <= i < places.len() && (#[trigger] places[i]).flat() == k
}

impl ChunkMap {
    /// Loads each chunk of `made`, with its collision shape, at the place of the same rank in
    /// `places`. The places are distinct and hold no chunk yet.
    pub fn put_chunks(&mut self, voxel_world: &mut VoxelChunkMap, places: Vec<MatrixIndex>, made: Vec<(Chunk, VoxelChunk)>)
        requires
            old(self).consistent(old(voxel_world)),
            places@.len() == made@.len(),
            forall|i: int, j: int| 0 <= i < j < places@.len() ==> #[trigger] places@[i] != #[trigger] places@[j],
            forall|i: int| 0 <= i < places@.len() ==> old(self)@[(#[trigger] places@[i]).flat()] is None,
            forall|i: int| 0 <= i < made@.len() ==> (#[trigger] made@[i]).0.wf() && made@[i].1.matches(made@[i].0.cells@),
        ensures
            final(self).consistent(final(voxel_world)),
            forall|i: int|
                0 <= i < places@.len() ==> final(self)@[(#[trigger] places@[i]).flat()] == Some(
                    (made@[i].0.cells@, made@[i].0.skip_simulation),
                ),
            forall|k: int| 0 <= k < 65536 && !placed_at(places@, k) ==> #[trigger] final(self)@[k] == old(self)@[k],
    {
        let ghost p0 = places@;
        let ghost c0 = made@;
        let ghost v0 = self@;
        let ghost n = p0.len();
        let mut places = places;
        let mut made = made;
        proof {
            lemma_wf_view(*self);
            assert(p0.subrange(n as int, n as int) =~= Seq::<MatrixIndex>::empty());
        }
        while places.len() > 0
            invariant
                self.consistent(voxel_world),
                n == p0.len() && n == c0.len(),
                places.len() <= n,
                places@ == p0.take(places.len() as int),
                made@ == c0.take(places.len() as int),
                self@.len() == 65536,
                forall|i: int, j: int| 0 <= i < j < n ==> #[trigger] p0[i] != #[trigger] p0[j],
                forall|i: int| 0 <= i < n ==> v0[(#[trigger] p0[i]).flat()] is None,
                forall|i: int| 0 <= i < n ==> (#[trigger] c0[i]).0.wf() && c0[i].1.matches(c0[i].0.cells@),
                forall|i: int|
                    places.len() <= i < n ==> self@[(#[trigger] p0[i]).flat()] == Some(
                        (c0[i].0.cells@, c0[i].0.skip_simulation),
                    ),
                forall|k: int|
                    0 <= k < 65536 && !placed_at(p0.subrange(places.len() as int, n as int), k) ==> #[trigger] self@[k]
                        == v0[k],
            decreases places.len(),
        {
            let ghost m = places.len() as int;
            let i = places.pop().unwrap();
            let c = made.pop().unwrap();
            proof {
                assert(p0[m - 1] == i && c0[m - 1] == c);
                lemma_flatten_roundtrip(i, 0);
                if placed_at(p0.subrange(m, n as int), i.flat()) {
                    let q = choose|q: int| 0 <= q < n - m && (#[trigger] p0.subrange(m, n as int)[q]).flat() == i.flat();
                    assert(p0.subrange(m, n as int)[q] == p0[m + q]);
                    lemma_flatten_roundtrip(p0[m + q], 0);
                    assert(p0[m - 1] != p0[m + q]);
                }
                assert(self@[i.flat()] == v0[i.flat()]);
            }
            self.insert(voxel_world, i, c);
            proof {
                assert(places@ =~= p0.take(m - 1));
                assert(made@ =~= c0.take(m - 1));
                let s1 = p0.subrange(m - 1, n as int);
                let s0 = p0.subrange(m, n as int);
                assert forall|j: int| m - 1 <= j < n implies self@[(#[trigger] p0[j]).flat()] == Some(
                    (c0[j].0.cells@, c0[j].0.skip_simulation),
                ) by {
                    if j != m - 1 {
                        lemma_flatten_roundtrip(p0[j], 0);
                        assert(p0[j] != p0[m - 1]);
                        assert(p0[j].flat() != i.flat());
                    }
                }
                assert forall|k: int| 0 <= k < 65536 && !placed_at(s1, k) implies #[trigger] self@[k] == v0[k] by {
                    assert(s1[0] == p0[m - 1]);
                    if placed_at(s0, k) {
                        let q = choose|q: int| 0 <= q < s0.len() && (#[trigger] s0[q]).flat() == k;
                        assert(s1[q + 1] == s0[q]);
                    }
                }
            }
        }
        proof {
            assert(p0.subrange(0, n as int) =~= p0);
        }
    }
}

/// Whether no chunk is loaded at a place, in the world view `v`.
pub open spec fn unloaded(v: Seq<Option<(Seq<Cell>, bool)>>) -> spec_fn(MatrixIndex) -> bool {
    |m: MatrixIndex| v[m.flat()] is None
}

/// The places of the rectangle from `lo` to `hi` (both included) where no chunk is loaded,
/// row by row, each from left to right: the chunks to load or to make.
pub fn missing_chunks(world: &ChunkMap, lo: MatrixIndex, hi: MatrixIndex) -> (r: Vec<MatrixIndex>)
    requires
        world.wf(),
    ensures
        r@ == rows_from(lo, hi, lo.y as int).filter(unloaded(world@)),
{
    let ghost all = rows_from(lo, hi, lo.y as int);
    let ghost mut ps: Seq<MatrixIndex> = Seq::empty();
    let ghost mut rest: Seq<MatrixIndex> = all;
    let mut out: Vec<MatrixIndex> = Vec::new();
    proof {
        reveal(Seq::filter);
        assert(ps + rest =~= all);
    }
    let mut y: u16 = lo.y as u16;
    while y <= hi.y as u16
        invariant
            world.wf(),
            all == rows_from(lo, hi, lo.y as int),
            ps + rest == all,
            rest == rows_from(lo, hi, y as int),
            out@ == ps.filter(unloaded(world@)),
            lo.y <= y <= 256,
        decreases 256 - y,
    {
        proof {
            assert(rest == row_from(lo.x as int, y as int, hi.x as int) + rows_from(lo, hi, y + 1));
        }
        let mut x: u16 = lo.x as u16;
        while x <= hi.x as u16
            invariant
                world.wf(),
                all == rows_from(lo, hi, lo.y as int),
                ps + rest == all,
                rest == row_from(x as int, y as int, hi.x as int) + rows_from(lo, hi, y + 1),
                out@ == ps.filter(unloaded(world@)),
                lo.x <= x <= 256,
                y <= hi.y,
            decreases 256 - x,
        {
            let i = MatrixIndex { x: x as u8, y: y as u8 };
            proof {
                assert(rest[0] == i);
            }
            if world.index(i).is_none() {
                out.push(i);
            }
            proof {
                reveal(Seq::filter);
                let ps1 = ps.push(i);
                assert(ps1.drop_last() =~= ps);
                assert(out@ == ps1.filter(unloaded(world@)));
                assert(rest.drop_first() =~= row_from(x + 1, y as int, hi.x as int) + rows_from(lo, hi, y + 1));
                assert(ps1 + rest.drop_first() =~= ps + rest);
                ps = ps1;
                rest = rest.drop_first();
            }
            x = x + 1;
        }
        proof {
            assert(rest =~= rows_from(lo, hi, y + 1));
        }
        y = y + 1;
    }
    proof {
        assert(rest =~= Seq::<MatrixIndex>::empty());
        assert(ps =~= all);
    }
    out
}

/// What a filter keeps was in the sequence.
proof fn lemma_filter_within(s: Seq<MatrixIndex>, pred: spec_fn(MatrixIndex) -> bool, x: MatrixIndex)
    requires
        s.filter(pred).contains(x),
    ensures
        s.contains(x),
        pred(x),
    decreases s.len(),
{
    reveal(Seq::filter);
    if s.len() > 0 {
        let sub = s.drop_last().filter(pred);
        if sub.contains(x) {
            lemma_filter_within(s.drop_last(), pred, x);
            let i = choose|i: int| 0 <= i < s.drop_last().len() && s.drop_last()[i] == x;
            assert(s[i] == x);
        } else {
            assert(pred(s.last()) && x == s.last());
            assert(s[s.len() - 1] == x);
        }
    }
}

/// The places of a range split into the loaded ones and those that `missing_chunks` lists:
/// a chunk is kept (loaded and not outside the range) or listed among the missing chunks
/// exactly when it lies in the range, and a listed chunk is not loaded yet; when nothing is
/// loaded outside the range, a place is loaded or listed exactly when it lies in the range.
pub proof fn lemma_load_covers_range(v: Seq<Option<(Seq<Cell>, bool)>>, lo: MatrixIndex, hi: MatrixIndex, m: MatrixIndex)
    requires
        v.len() == 65536,
    ensures
        rows_from(lo, hi, lo.y as int).filter(unloaded(v)).contains(m) ==> v[m.flat()] is None,
        (forall|n: MatrixIndex| !(lo.x <= n.x <= hi.x && lo.y <= n.y <= hi.y) ==> #[trigger] v[n.flat()] is None)
            ==> ((v[m.flat()] is Some || rows_from(lo, hi, lo.y as int).filter(unloaded(v)).contains(m)) <==> (lo.x
            <= m.x <= hi.x && lo.y <= m.y <= hi.y)),
        (v[m.flat()] is Some && lo.x <= m.x <= hi.x && lo.y <= m.y <= hi.y) || rows_from(lo, hi, lo.y as int).filter(
            unloaded(v),
        ).contains(m) <==> (lo.x <= m.x <= hi.x && lo.y <= m.y <= hi.y),
{
    let all = rows_from(lo, hi, lo.y as int);
    let f = all.filter(unloaded(v));
    lemma_rows_from_contains(lo, hi, lo.y as int, m);
    lemma_flatten_roundtrip(m, 0);
    if f.contains(m) {
        lemma_filter_within(all, unloaded(v), m);
    }
    if all.contains(m) && v[m.flat()] is None {
        let i = choose|i: int| 0 <= i < all.len() && all[i] == m;
        all.lemma_filter_contains(unloaded(v), i);
    }
}

/// Loading a range leaves exactly the range loaded, and the chunks kept as they were: from the
/// world view `a`, `take_outside` takes out the chunks outside the range (giving `b`), then
/// `put_chunks` puts chunks at the places that `missing_chunks` lists for `b` (giving `c`).
/// In `c` a chunk is loaded exactly at the places of the range, and each chunk of the range
/// already loaded in `a` is unchanged.
pub proof fn lemma_loading_fills_range(
    a: Seq<Option<(Seq<Cell>, bool)>>,
    b: Seq<Option<(Seq<Cell>, bool)>>,
    c: Seq<Option<(Seq<Cell>, bool)>>,
    lo: MatrixIndex,
    hi: MatrixIndex,
    places: Seq<MatrixIndex>,
)
    requires
        b.len() == 65536,
        forall|k: int|
            0 <= k < 65536 ==> #[trigger] b[k] == if outside(MatrixIndex::unflat(k), lo, hi) {
                None
            } else {
                a[k]
            },
        places == rows_from(lo, hi, lo.y as int).filter(unloaded(b)),
        forall|i: int| 0 <= i < places.len() ==> c[(#[trigger] places[i]).flat()] is Some,
        forall|k: int| 0 <= k < 65536 && !placed_at(places, k) ==> #[trigger] c[k] == b[k],
    ensures
        forall|m: MatrixIndex| #[trigger] c[m.flat()] is Some <==> !outside(m, lo, hi),
        forall|m: MatrixIndex| !outside(m, lo, hi) && #[trigger] a[m.flat()] is Some ==> c[m.flat()] == a[m.flat()],
{
    assert forall|m: MatrixIndex| (#[trigger] c[m.flat()] is Some <==> !outside(m, lo, hi)) && (!outside(m, lo, hi)
        && a[m.flat()] is Some ==> c[m.flat()] == a[m.flat()]) by {
        let k = m.flat();
        lemma_flatten_roundtrip(m, 0);
        lemma_load_covers_range(b, lo, hi, m);
        if placed_at(places, k) {
            let i = choose|i: int| 0 <= i < places.len() && (#[trigger] places[i]).flat() == k;
            lemma_flatten_roundtrip(places[i], 0);
            assert(places[i] == m);
            assert(places.contains(m));
        } else {
            assert(c[k] == b[k]);
            if places.contains(m) {
                let i = choose|i: int| 0 <= i < places.len() && places[i] == m;
                assert(places[i].flat() == k);
            }
        }
    }
}

/// The cell kinds of a newly made chunk: each drawn with `rng` from the kinds 2, 3 and 4.
pub fn random_chunk_ids(rng: &mut SmallRng) -> (r: Vec<CellId>)
    ensures
        r@.len() == CHUNK_AREA,
        forall|k: int| 0 <= k < CHUNK_AREA ==> 2 <= #[trigger] r@[k] < 5,
{
    let mut ids: Vec<CellId> = Vec::new();
    let mut k: usize = 0;
    while k < CHUNK_AREA
        invariant
            k <= CHUNK_AREA,
            ids@.len() == k,
            forall|j: int| 0 <= j < k ==> 2 <= #[trigger] ids@[j] < 5,
        decreases CHUNK_AREA - k,
    {
        let id = sample_range(rng, 2, 5);
        ids.push(id as CellId);
        k = k + 1;
    }
    ids
}

} // verus!
