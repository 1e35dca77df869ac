use crate::chunk_map::{lemma_wf_view, ChunkMap, FullIndex};
use crate::matrix::{deref_all, filled, lemma_flatten_roundtrip, Matrix, MatrixIndex};
use vstd::prelude::*;

verus! {

/// A slot for each cell of the chunks that a world had loaded when the map was made. Every
/// slot starts empty; the chunks are given consecutive blocks of 65536 slots, one slot per
/// cell, in row-major order of the chunks.
pub struct CellMap<T> {
    chunk_index: Matrix<Option<usize>>,
    map: Vec<Option<T>>,
}

impl<T> CellMap<T> {
    /// The chunk at `m` has slots in this map.
    pub closed spec fn covers(&self, m: MatrixIndex) -> bool {
        self.chunk_index@[m.flat()] is Some
    }

    /// Where the slot of the cell at `index` lies.
    closed spec fn slot(&self, index: FullIndex) -> int {
        self.chunk_index@[index.chunk_index.flat()].unwrap() * 65536 + index.cell_index.flat()
    }

    /// What the slot of the cell at `index` holds.
    pub closed spec fn at(&self, index: FullIndex) -> Option<T> {
        self.map@[self.slot(index)]
    }

    /// Each chunk covered has a block of its own that lies inside the slots.
    pub closed spec fn wf(&self) -> bool {
        &&& self.chunk_index.wf()
        &&& self.map@.len() <= usize::MAX
        &&& forall|k: int|
            0 <= k < 65536 && #[trigger] self.chunk_index@[k] is Some ==> (self.chunk_index@[k].unwrap() + 1)
                * 65536 <= self.map@.len()
        &&& forall|a: int, b: int|
            0 <= a < 65536 && 0 <= b < 65536 && a != b && #[trigger] self.chunk_index@[a] is Some
                && #[trigger] self.chunk_index@[b] is Some ==> self.chunk_index@[a].unwrap()
                != self.chunk_index@[b].unwrap()
    }

    /// A map with an empty slot for each cell of the chunks loaded in `world`.
    #[must_use]
    pub fn new(world: &ChunkMap) -> (r: Self)
        requires
            world.wf(),
            world.chunks.len * 65536 <= usize::MAX,
        ensures
            r.wf(),
            forall|m: MatrixIndex| #[trigger] r.covers(m) <==> world@[m.flat()] is Some,
            forall|index: FullIndex| r.covers(index.chunk_index) ==> #[trigger] r.at(index) is None,
    {
        let mut chunk_index: Matrix<Option<usize>> = Matrix::uninit();
        let all = world.chunks.iter();
        let ghost l = deref_all(all@);
        proof {
            lemma_wf_view(*world);
            assert forall|j: int| 0 <= j < l.len() implies 0 <= (#[trigger] l[j]).0.flat() < 65536 by {
                assert(filled(world.chunks.matrix@, l[j].0.flat()));
            }
        }
        let n = all.len();
        let mut i: usize = 0;
        while i < n
            invariant
                chunk_index.wf(),
                n == all@.len(),
                l == deref_all(all@),
                l.len() == n,
                i <= n,
                forall|j: int| 0 <= j < i ==> #[trigger] chunk_index@[l[j].0.flat()] == Some(j as usize),
                forall|k: int|
                    0 <= k < 65536 && #[trigger] chunk_index@[k] is Some ==> chunk_index@[k].unwrap() < i
                        && l[chunk_index@[k].unwrap() as int].0.flat() == k,
                forall|a: int, b: int| 0 <= a < b < n ==> (#[trigger] l[a]).0.flat() < (#[trigger] l[b]).0.flat(),
                forall|j: int| 0 <= j < n ==> 0 <= (#[trigger] l[j]).0.flat() < 65536,
            decreases n - i,
        {
            let m = all[i].0;
            let ghost k = m.flat();
            proof {
                assert(l[i as int].0 == m);
                lemma_flatten_roundtrip(m, 0);
                if chunk_index@[k] is Some {
                    let j = chunk_index@[k].unwrap() as int;
                    assert(l[j].0.flat() < l[i as int].0.flat());
                }
            }
            *chunk_index.index_mut(m) = Some(i);
            proof {
                assert forall|j: int| 0 <= j < i + 1 implies #[trigger] chunk_index@[l[j].0.flat()] == Some(
                    j as usize,
                ) by {
                    if j < i {
                        assert(l[j].0.flat() < l[i as int].0.flat());
                    }
                }
            }
            i = i + 1;
        }
        let total = n * 65536;
        let mut map: Vec<Option<T>> = Vec::new();
        let mut s: usize = 0;
        while s < total
            invariant
                s <= total,
                map@.len() == s,
                forall|j: int| 0 <= j < s ==> map@[j] is None,
            decreases total - s,
        {
            map.push(None);
            s = s + 1;
        }
        let r = CellMap { chunk_index, map };
        proof {
            assert forall|k: int|
                0 <= k < 65536 && #[trigger] r.chunk_index@[k] is Some implies (r.chunk_index@[k].unwrap() + 1)
                * 65536 <= r.map@.len() by {
                let c = r.chunk_index@[k].unwrap() as int;
                assert((c + 1) * 65536 <= n * 65536) by (nonlinear_arith)
                    requires
                        c < n,
                ;
            }
            assert forall|m: MatrixIndex| #[trigger] r.covers(m) <==> world@[m.flat()] is Some by {
                lemma_flatten_roundtrip(m, 0);
                if world@[m.flat()] is Some {
                    assert(filled(world.chunks.matrix@, m.flat()));
                    let j = choose|j: int| 0 <= j < l.len() && (#[trigger] l[j]).0.flat() == m.flat();
                    assert(chunk_index@[l[j].0.flat()] == Some(j as usize));
                }
                if r.covers(m) {
                    let j = chunk_index@[m.flat()].unwrap() as int;
                    assert(l[j].0.flat() == m.flat());
                    assert(filled(world.chunks.matrix@, l[j].0.flat()));
                }
            }
            assert forall|index: FullIndex| r.covers(index.chunk_index) implies #[trigger] r.at(index) is None by {
                lemma_flatten_roundtrip(index.cell_index, 0);
                lemma_flatten_roundtrip(index.chunk_index, 0);
                let c = r.chunk_index@[index.chunk_index.flat()].unwrap() as int;
                assert(0 <= c * 65536 + index.cell_index.flat() < n * 65536) by (nonlinear_arith)
                    requires
                        0 <= c < n,
                        0 <= index.cell_index.flat() < 65536,
                ;
            }
        }
        r
    }

    /// Whether the slots of two cells of covered chunks are one and the same: only for the
    /// same cell.
    proof fn lemma_slots_apart(&self, a: FullIndex, b: FullIndex)
        requires
            self.wf(),
            self.covers(a.chunk_index),
            self.covers(b.chunk_index),
            a != b,
        ensures
            self.slot(a) != self.slot(b),
            0 <= self.slot(a) < self.map@.len(),
    {
        lemma_flatten_roundtrip(a.chunk_index, 0);
        lemma_flatten_roundtrip(b.chunk_index, 0);
        lemma_flatten_roundtrip(a.cell_index, 0);
        lemma_flatten_roundtrip(b.cell_index, 0);
        let ca = self.chunk_index@[a.chunk_index.flat()].unwrap() as int;
        let cb = self.chunk_index@[b.chunk_index.flat()].unwrap() as int;
        let fa = a.cell_index.flat();
        let fb = b.cell_index.flat();
        assert((ca + 1) * 65536 <= self.map@.len());
        assert(0 <= ca * 65536 + fa < (ca + 1) * 65536) by (nonlinear_arith)
            requires
                0 <= ca,
                0 <= fa < 65536,
        ;
        if a.chunk_index != b.chunk_index {
            assert(ca != cb);
            assert(ca * 65536 + fa != cb * 65536 + fb) by (nonlinear_arith)
                requires
                    ca != cb,
                    0 <= fa < 65536,
                    0 <= fb < 65536,
            ;
        } else {
            assert(a.cell_index != b.cell_index);
            assert(fa != fb);
        }
    }

    /// The value stored for the cell at `index`, if any. Its chunk must be covered.
    #[must_use]
    pub fn get(&self, index: FullIndex) -> (r: Option<&T>)
        requires
            self.wf(),
            self.covers(index.chunk_index),
        ensures
            match r {
                Some(v) => self.at(index) == Some(*v),
                None => self.at(index) is None,
            },
    {
        proof {
            lemma_flatten_roundtrip(index.chunk_index, 0);
            lemma_flatten_roundtrip(index.cell_index, 0);
            let c = self.chunk_index@[index.chunk_index.flat()].unwrap() as int;
            assert((c + 1) * 65536 <= self.map@.len());
            assert(c * 65536 + index.cell_index.flat() < (c + 1) * 65536) by (nonlinear_arith)
                requires
                    0 <= index.cell_index.flat() < 65536,
            ;
        }
        let chunk = self.chunk_index.index(index.chunk_index).unwrap();
        let slot = chunk * 65536 + index.cell_index.flatten() as usize;
        match &self.map[slot] {
            Some(v) => Some(v),
            None => None,
        }
    }

    /// Stores `val` for the cell at `index`, whose chunk must be covered; every other slot
    /// keeps what it held.
    pub fn insert(&mut self, index: FullIndex, val: T)
        requires
            old(self).wf(),
            old(self).covers(index.chunk_index),
        ensures
            final(self).wf(),
            forall|m: MatrixIndex| #[trigger] final(self).covers(m) == old(self).covers(m),
            final(self).at(index) == Some(val),
            forall|j: FullIndex|
                old(self).covers(j.chunk_index) && j != index ==> #[trigger] final(self).at(j) == old(self).at(j),
    {
        let ghost s0 = *self;
        proof {
            lemma_flatten_roundtrip(index.chunk_index, 0);
            lemma_flatten_roundtrip(index.cell_index, 0);
            let c = self.chunk_index@[index.chunk_index.flat()].unwrap() as int;
            assert((c + 1) * 65536 <= self.map@.len());
            assert(c * 65536 + index.cell_index.flat() < (c + 1) * 65536) by (nonlinear_arith)
                requires
                    0 <= index.cell_index.flat() < 65536,
            ;
        }
        let chunk = *self.chunk_index.index(index.chunk_index);
        let chunk = chunk.unwrap();
        let slot = chunk * 65536 + index.cell_index.flatten() as usize;
        self.map.set(slot, Some(val));
        proof {
            assert forall|j: FullIndex| s0.covers(j.chunk_index) && j != index implies #[trigger] self.at(j) == s0.at(
                j,
            ) by {
                s0.lemma_slots_apart(j, index);
            }
        }
    }
}

} // verus!
