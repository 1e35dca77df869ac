use vstd::prelude::*;
use vstd::std_specs::ops::{AddSpec, SubSpec};

verus! {

/// A position inside a 256 x 256 grid (a cell inside a chunk, or a chunk inside the map).
/// The fields are ordered so that the derived ordering agrees with `flatten`.
#[derive(Clone, Copy, Debug, PartialEq, Eq, Structural, PartialOrd, Ord, Hash)]
pub struct MatrixIndex {
    pub y: u8,
    pub x: u8,
}

/// Row-major position of `(x, y)` in a 256 x 256 grid.
pub open spec fn flat_of(x: int, y: int) -> int {
    y * 256 + x
}

impl MatrixIndex {
    pub open spec fn flat(self) -> int {
        flat_of(self.x as int, self.y as int)
    }

    #[must_use]
    pub fn x(self) -> (r: usize)
        ensures
            r == self.x,
    {
        self.x as usize
    }

    #[must_use]
    pub fn y(self) -> (r: usize)
        ensures
            r == self.y,
    {
        self.y as usize
    }

    #[must_use]
    pub fn flatten(self) -> (r: u16)
        ensures
            r == self.flat(),
    {
        (self.y as u16) * 256 + (self.x as u16)
    }
}


impl MatrixIndex {
    /// The index of `(x, y)`; both must be below 256.
    #[must_use]
    pub fn new(x: usize, y: usize) -> (r: Self)
        requires
            x < 256,
            y < 256,
        ensures
            r.x == x,
            r.y == y,
    {
        Self { x: x as u8, y: y as u8 }
    }

    /// The index whose row-major position is `value`.
    pub open spec fn unflat(value: int) -> MatrixIndex {
        MatrixIndex { x: (value % 256) as u8, y: (value / 256) as u8 }
    }
}

impl From<u16> for MatrixIndex {
    fn from(value: u16) -> (r: Self) {
        let width: u16 = 256;
        Self { x: (value % width) as u8, y: (value / width) as u8 }
    }
}

impl vstd::std_specs::convert::FromSpecImpl<u16> for MatrixIndex {
    open spec fn obeys_from_spec() -> bool {
        true
    }

    open spec fn from_spec(v: u16) -> Self {
        MatrixIndex::unflat(v as int)
    }
}

impl core::ops::Add<(u8, u8)> for MatrixIndex {
    type Output = Self;

    fn add(self, rhs: (u8, u8)) -> (r: Self) {
        Self { x: self.x + rhs.0, y: self.y + rhs.1 }
    }
}

impl vstd::std_specs::ops::AddSpecImpl<(u8, u8)> for MatrixIndex {
    open spec fn obeys_add_spec() -> bool {
        true
    }

    open spec fn add_req(self, rhs: (u8, u8)) -> bool {
        self.x + rhs.0 <= 255 && self.y + rhs.1 <= 255
    }

    open spec fn add_spec(self, rhs: (u8, u8)) -> Self {
        MatrixIndex { x: (self.x + rhs.0) as u8, y: (self.y + rhs.1) as u8 }
    }
}

impl core::ops::Sub<(u8, u8)> for MatrixIndex {
    type Output = Self;

    fn sub(self, rhs: (u8, u8)) -> (r: Self) {
        Self { x: self.x - rhs.0, y: self.y - rhs.1 }
    }
}

impl vstd::std_specs::ops::SubSpecImpl<(u8, u8)> for MatrixIndex {
    open spec fn obeys_sub_spec() -> bool {
        true
    }

    open spec fn sub_req(self, rhs: (u8, u8)) -> bool {
        self.x >= rhs.0 && self.y >= rhs.1
    }

    open spec fn sub_spec(self, rhs: (u8, u8)) -> Self {
        MatrixIndex { x: (self.x - rhs.0) as u8, y: (self.y - rhs.1) as u8 }
    }
}

/// `flatten` and `From<u16>` are inverse to each other: every index has exactly one
/// row-major position, and every position below 65536 names exactly one index.
pub proof fn lemma_flatten_roundtrip(i: MatrixIndex, v: u16)
    ensures
        MatrixIndex::unflat(i.flat()) == i,
        MatrixIndex::unflat(v as int).flat() == v,
        0 <= i.flat() < 65536,
{
}

/// Flattening preserves the order of indices: row first, then column.
pub proof fn lemma_flatten_order(a: MatrixIndex, b: MatrixIndex)
    ensures
        a.flat() < b.flat() <==> (a.y < b.y || (a.y == b.y && a.x < b.x)),
        a.flat() == b.flat() <==> a == b,
{
}

/// Subtracting an offset undoes adding it, and adding undoes subtracting.
pub proof fn lemma_index_add_sub(i: MatrixIndex, d: (u8, u8))
    ensures
        i.add_req(d) ==> i.add_spec(d).sub_req(d) && i.add_spec(d).sub_spec(d) == i,
        i.sub_req(d) ==> i.sub_spec(d).add_req(d) && i.sub_spec(d).add_spec(d) == i,
{
}

/// A 256 x 256 grid of values, stored row by row.
pub struct Matrix<T> {
    pub elems: Vec<T>,
}

impl<T> View for Matrix<T> {
    type V = Seq<T>;

    open spec fn view(&self) -> Seq<T> {
        self.elems@
    }
}

/// The elements of `a` and `b` exchanged at positions `i` and `j`.
pub open spec fn swapped<T>(s: Seq<T>, i: int, j: int) -> Seq<T> {
    s.update(i, s[j]).update(j, s[i])
}

/// The filled entry at position `i` of `s`, reached for changing in place.
fn slot<T>(s: &mut [Option<T>], i: usize) -> (r: Option<&mut T>)
    requires
        i < old(s)@.len(),
    ensures
        match old(s)@[i as int] {
            None => r is None && final(s)@ == old(s)@,
            Some(v) => r is Some && *r.unwrap() == v && final(s)@ == old(s)@.update(
                i as int,
                Some(*final(r.unwrap())),
            ),
        },
{
    let (_front, back) = s.split_at_mut(i);
    let e = back.first_mut().unwrap();
    e.as_mut()
}

/// The positions of the neighbours of `idx` that `get_neighbors_mut` reaches, in its order:
/// below, left, the place itself, right, above; `None` past an edge of the grid.
pub open spec fn neighbor_places(idx: MatrixIndex) -> Seq<Option<int>> {
    let k = idx.flat();
    seq![
        if idx.y != 0 { Some(k - 256) } else { None },
        if idx.x != 0 { Some(k - 1) } else { None },
        Some(k),
        if idx.x != 255 { Some(k + 1) } else { None },
        if idx.y != 255 { Some(k + 256) } else { None },
    ]
}

/// `r` reaches the filled entry of `s` at the place `p`, or nothing when there is no place
/// or the entry is empty.
pub open spec fn reaches<T>(s: Seq<Option<T>>, p: Option<int>, r: Option<&mut T>) -> bool {
    match p {
        None => r is None,
        Some(k) => match s[k] {
            None => r is None,
            Some(v) => r is Some && *r.unwrap() == v,
        },
    }
}

impl<T> Matrix<Option<T>> {
    /// Mutable access to the filled entries at `idx` and at its four neighbours (below, left,
    /// itself, right, above), each `None` past an edge of the grid or where the entry is
    /// empty.
    pub fn get_neighbors_mut(&mut self, idx: MatrixIndex) -> (r: (
        Option<&mut T>,
        Option<&mut T>,
        Option<&mut T>,
        Option<&mut T>,
        Option<&mut T>,
    ))
        requires
            old(self).wf(),
        ensures
            reaches(old(self)@, neighbor_places(idx)[0], r.0),
            reaches(old(self)@, neighbor_places(idx)[1], r.1),
            reaches(old(self)@, neighbor_places(idx)[2], r.2),
            reaches(old(self)@, neighbor_places(idx)[3], r.3),
            reaches(old(self)@, neighbor_places(idx)[4], r.4),
            final(self)@.len() == 65536,
            forall|k: int|
                0 <= k < 65536 ==> #[trigger] final(self)@[k] == if r.0 is Some && neighbor_places(idx)[0] == Some(k) {
                    Some(*final(r.0.unwrap()))
                } else if r.1 is Some && neighbor_places(idx)[1] == Some(k) {
                    Some(*final(r.1.unwrap()))
                } else if r.2 is Some && neighbor_places(idx)[2] == Some(k) {
                    Some(*final(r.2.unwrap()))
                } else if r.3 is Some && neighbor_places(idx)[3] == Some(k) {
                    Some(*final(r.3.unwrap()))
                } else if r.4 is Some && neighbor_places(idx)[4] == Some(k) {
                    Some(*final(r.4.unwrap()))
                } else {
                    old(self)@[k]
                },
    {
        let k = idx.flatten() as usize;
        let s = self.elems.as_mut_slice();
        let (lo, rest) = s.split_at_mut(k);
        let (mid, hi) = rest.split_at_mut(1);
        let here = slot(mid, 0);
        let (below, left) = if k >= 1 {
            let (lo_a, lo_b) = lo.split_at_mut(k - 1);
            let left = if idx.x != 0 {
                slot(lo_b, 0)
            } else {
                None
            };
            let below = if idx.y != 0 {
                slot(lo_a, k - 256)
            } else {
                None
            };
            (below, left)
        } else {
            (None, None)
        };
        let (right, above) = if hi.len() >= 1 {
            let (hi_a, hi_b) = hi.split_at_mut(1);
            let right = if idx.x != 255 {
                slot(hi_a, 0)
            } else {
                None
            };
            let above = if idx.y != 255 {
                slot(hi_b, 254)
            } else {
                None
            };
            (right, above)
        } else {
            (None, None)
        };
        (below, left, here, right, above)
    }
}

impl<T> Matrix<T> {
    /// The grid holds exactly one value per index.
    pub open spec fn wf(&self) -> bool {
        self@.len() == 65536
    }

    /// The value at `index`.
    pub open spec fn at(&self, index: MatrixIndex) -> T {
        self@[index.flat()]
    }

    /// A grid in which no value has been written yet: every entry is empty.
    #[must_use]
    pub fn uninit() -> (m: Matrix<Option<T>>)
        ensures
            m.wf(),
            forall|i: int| 0 <= i < 65536 ==> m@[i] is None,
    {
        let mut elems: Vec<Option<T>> = Vec::new();
        let mut i: usize = 0;
        while i < 65536
            invariant
                i <= 65536,
                elems@.len() == i,
                forall|k: int| 0 <= k < i ==> elems@[k] is None,
            decreases 65536 - i,
        {
            elems.push(None);
            i = i + 1;
        }
        Matrix { elems }
    }

    pub fn index(&self, index: MatrixIndex) -> (r: &T)
        requires
            self.wf(),
        ensures
            *r == self.at(index),
    {
        &self.elems[index.flatten() as usize]
    }

    pub fn index_mut(&mut self, index: MatrixIndex) -> (r: &mut T)
        requires
            old(self).wf(),
        ensures
            *r == old(self).at(index),
            final(self)@ == old(self)@.update(index.flat(), *final(r)),
    {
        &mut self.elems[index.flatten() as usize]
    }

    /// All values, row by row.
    pub fn iter(&self) -> (s: &[T])
        ensures
            s@ == self@,
    {
        self.elems.as_slice()
    }

    /// All values, row by row, for changing in place.
    pub fn iter_mut(&mut self) -> (s: &mut [T])
        ensures
            s@ == old(self)@,
            final(self)@ == final(s)@,
    {
        self.elems.as_mut_slice()
    }

    /// Mutable access to the values at two different indices at once.
    pub fn get_disjoint_mut(&mut self, idx: [MatrixIndex; 2]) -> ((a, b): (&mut T, &mut T))
        requires
            old(self).wf(),
            idx[0] != idx[1],
        ensures
            *a == old(self).at(idx[0]),
            *b == old(self).at(idx[1]),
            final(self)@ == old(self)@.update(idx[0].flat(), *final(a)).update(
                idx[1].flat(),
                *final(b),
            ),
    {
        let i = idx[0].flatten() as usize;
        let j = idx[1].flatten() as usize;
        proof {
            lemma_flatten_order(idx[0], idx[1]);
        }
        let s = self.elems.as_mut_slice();
        if i < j {
            let (front, back) = s.split_at_mut(j);
            let (_f1, f2) = front.split_at_mut(i);
            let x = f2.first_mut().unwrap();
            let y = back.first_mut().unwrap();
            (x, y)
        } else {
            let (front, back) = s.split_at_mut(i);
            let (_f1, f2) = front.split_at_mut(j);
            let y = f2.first_mut().unwrap();
            let x = back.first_mut().unwrap();
            (x, y)
        }
    }

    /// Every value with its index, row by row.
    pub fn iter_enumerate(&self) -> (r: Vec<(MatrixIndex, &T)>)
        requires
            self.wf(),
        ensures
            r@.len() == 65536,
            forall|i: int|
                0 <= i < 65536 ==> (#[trigger] r@[i]).0 == MatrixIndex::unflat(i) && *r@[i].1
                    == self@[i],
    {
        let mut out: Vec<(MatrixIndex, &T)> = Vec::new();
        let mut i: u32 = 0;
        while i < 65536
            invariant
                self.wf(),
                i <= 65536,
                out@.len() == i,
                forall|k: int|
                    0 <= k < i ==> (#[trigger] out@[k]).0 == MatrixIndex::unflat(k) && *out@[k].1
                        == self@[k],
            decreases 65536 - i,
        {
            let idx = MatrixIndex::from(i as u16);
            out.push((idx, &self.elems[i as usize]));
            i = i + 1;
        }
        out
    }

    /// Every value with its index, row by row, for changing in place: the indices, and the
    /// values at the same positions.
    pub fn iter_mut_enumerate(&mut self) -> (r: (Vec<MatrixIndex>, &mut [T]))
        requires
            old(self).wf(),
        ensures
            r.0@.len() == 65536,
            forall|i: int| 0 <= i < 65536 ==> (#[trigger] r.0@[i]) == MatrixIndex::unflat(i),
            r.1@ == old(self)@,
            final(self)@ == final(r.1)@,
    {
        let mut idx: Vec<MatrixIndex> = Vec::new();
        let mut i: u32 = 0;
        while i < 65536
            invariant
                i <= 65536,
                idx@.len() == i,
                forall|k: int| 0 <= k < i ==> (#[trigger] idx@[k]) == MatrixIndex::unflat(k),
            decreases 65536 - i,
        {
            idx.push(MatrixIndex::from(i as u16));
            i = i + 1;
        }
        (idx, self.elems.as_mut_slice())
    }

    /// Exchanges the values at `from` and `to`.
    pub fn swap(&mut self, from: MatrixIndex, to: MatrixIndex)
        requires
            old(self).wf(),
        ensures
            final(self)@ == swapped(old(self)@, from.flat(), to.flat()),
    {
        let i = from.flatten() as usize;
        let j = to.flatten() as usize;
        if i == j {
            assert(swapped(self@, i as int, j as int) =~= self@);
            return;
        }
        let (lo, hi) = if i < j {
            (i, j)
        } else {
            (j, i)
        };
        let ghost before = self@;
        let s = self.elems.as_mut_slice();
        let (a, b) = s.split_at_mut(hi);
        let (_a1, a2) = a.split_at_mut(lo);
        let x = a2.first_mut().unwrap();
        let y = b.first_mut().unwrap();
        std::mem::swap(x, y);
        assert(self@ =~= swapped(before, i as int, j as int));
    }
}

/// Number of filled entries.
pub open spec fn count_some<T>(s: Seq<Option<T>>) -> nat
    decreases s.len(),
{
    if s.len() == 0 {
        0
    } else {
        count_some(s.drop_last()) + if s.last() is Some {
            1nat
        } else {
            0nat
        }
    }
}

/// Writing one entry changes the number of filled entries by what it removes and adds.
pub proof fn lemma_count_update<T>(s: Seq<Option<T>>, i: int, v: Option<T>)
    requires
        0 <= i < s.len(),
    ensures
        count_some(s.update(i, v)) + (if s[i] is Some {
            1int
        } else {
            0int
        }) == count_some(s) + (if v is Some {
            1int
        } else {
            0int
        }),
    decreases s.len(),
{
    let u = s.update(i, v);
    if i == s.len() - 1 {
        assert(u.drop_last() =~= s.drop_last());
    } else {
        assert(u.drop_last() =~= s.drop_last().update(i, v));
        lemma_count_update(s.drop_last(), i, v);
    }
}

/// The number of filled entries is at most the length, and it is zero exactly when no entry
/// is filled.
pub proof fn lemma_count_bounds<T>(s: Seq<Option<T>>)
    ensures
        count_some(s) <= s.len(),
        count_some(s) == 0 <==> forall|k: int| 0 <= k < s.len() ==> s[k] is None,
        (exists|k: int| 0 <= k < s.len() && s[k] is None) ==> count_some(s) < s.len(),
    decreases s.len(),
{
    if s.len() > 0 {
        lemma_count_bounds(s.drop_last());
        if count_some(s) == 0 {
            assert forall|k: int| 0 <= k < s.len() implies s[k] is None by {
                if k < s.len() - 1 {
                    assert(s.drop_last()[k] == s[k]);
                }
            }
        }
        if exists|k: int| 0 <= k < s.len() && s[k] is None {
            let k = choose|k: int| 0 <= k < s.len() && s[k] is None;
            if k < s.len() - 1 {
                assert(s.drop_last()[k] is None);
            }
        }
        if count_some(s) != 0 {
            if forall|k: int| 0 <= k < s.len() ==> s[k] is None {
                assert(s.last() is None);
                assert forall|k: int| 0 <= k < s.drop_last().len() implies s.drop_last()[k]
                    is None by {
                    assert(s[k] is None);
                }
            }
        }
    }
}

/// A grid of optional values that tracks how many are present and the smallest box
/// (in chunk coordinates) that holds them all.
pub struct MatrixBounded<T> {
    pub matrix: Matrix<Option<T>>,
    pub len: usize,
    pub min_elem: MatrixIndex,
    pub max_elem: MatrixIndex,
}

/// Whether entry `k` of the grid is filled.
pub open spec fn filled<T>(s: Seq<Option<T>>, k: int) -> bool {
    0 <= k < 65536 && s[k] is Some
}

/// Whether the flat position `k` lies in the box from `lo` to `hi` (inclusive).
pub open spec fn in_box(k: int, lo: MatrixIndex, hi: MatrixIndex) -> bool {
    let i = MatrixIndex::unflat(k);
    lo.x <= i.x <= hi.x && lo.y <= i.y <= hi.y
}

/// `lo`..`hi` is the smallest box holding every filled entry of `s`, or the empty box
/// (`lo` at the far corner, `hi` at the origin) when nothing is filled.
pub open spec fn is_bounding_box<T>(s: Seq<Option<T>>, lo: MatrixIndex, hi: MatrixIndex) -> bool {
    &&& forall|k: int| filled(s, k) ==> #[trigger] in_box(k, lo, hi)
    &&& (forall|k: int| 0 <= k < 65536 ==> s[k] is None) ==> (lo == MatrixIndex { x: 255, y: 255 }
        && hi == MatrixIndex { x: 0, y: 0 })
    &&& (exists|k: int| filled(s, k)) ==> {
        &&& exists|k: int| #[trigger] filled(s, k) && MatrixIndex::unflat(k).x == lo.x
        &&& exists|k: int| #[trigger] filled(s, k) && MatrixIndex::unflat(k).x == hi.x
        &&& exists|k: int| #[trigger] filled(s, k) && MatrixIndex::unflat(k).y == lo.y
        &&& exists|k: int| #[trigger] filled(s, k) && MatrixIndex::unflat(k).y == hi.y
    }
}

impl<T> MatrixBounded<T> {
    pub open spec fn wf(&self) -> bool {
        &&& self.matrix.wf()
        &&& self.len == count_some(self.matrix@)
        &&& is_bounding_box(self.matrix@, self.min_elem, self.max_elem)
    }

    /// The entry at `index`.
    pub open spec fn at(&self, index: MatrixIndex) -> Option<T> {
        self.matrix@[index.flat()]
    }

    #[must_use]
    pub fn new() -> (m: Self)
        ensures
            m.wf(),
            m.len == 0,
            forall|k: int| 0 <= k < 65536 ==> m.matrix@[k] is None,
    {
        let matrix = Matrix::<T>::uninit();
        proof {
            lemma_count_bounds(matrix@);
        }
        MatrixBounded {
            matrix,
            len: 0,
            min_elem: MatrixIndex { x: 255, y: 255 },
            max_elem: MatrixIndex { x: 0, y: 0 },
        }
    }

    pub fn index(&self, index: MatrixIndex) -> (r: &Option<T>)
        requires
            self.wf(),
        ensures
            *r == self.at(index),
    {
        self.matrix.index(index)
    }

    /// Mutable access to the value at `index`, if there is one; the set of filled entries,
    /// their number and their box stay as they are.
    pub fn get_mut(&mut self, index: MatrixIndex) -> (r: Option<&mut T>)
        requires
            old(self).wf(),
        ensures
            final(self).wf(),
            final(self).len == old(self).len,
            final(self).min_elem == old(self).min_elem,
            final(self).max_elem == old(self).max_elem,
            match r {
                Some(v) => old(self).at(index) == Some(*v) && final(self).matrix@ == old(
                    self,
                ).matrix@.update(index.flat(), Some(*final(v))),
                None => old(self).at(index) is None && final(self).matrix@ == old(self).matrix@,
            },
    {
        let ghost before = self.matrix@;
        proof {
            lemma_flatten_roundtrip(index, 0);
            assert forall|s2: Seq<Option<T>>|
                s2.len() == 65536 && (forall|k: int| 0 <= k < 65536 ==> (#[trigger] s2[k] is Some
                    <==> before[k] is Some)) implies count_some(s2) == self.len && is_bounding_box(
                s2,
                self.min_elem,
                self.max_elem,
            ) by {
                lemma_same_pattern(before, s2, self.min_elem, self.max_elem);
            }
        }
        match self.matrix.index_mut(index) {
            Some(v) => Some(v),
            None => None,
        }
    }

    /// Stores `chunk` at the empty entry `index` and grows the box to hold it.
    pub fn insert(&mut self, index: MatrixIndex, chunk: T)
        requires
            old(self).wf(),
            old(self).at(index) is None,
        ensures
            final(self).wf(),
            final(self).matrix@ == old(self).matrix@.update(index.flat(), Some(chunk)),
            final(self).len == old(self).len + 1,
            final(self).min_elem == (MatrixIndex {
                x: if index.x < old(self).min_elem.x { index.x } else { old(self).min_elem.x },
                y: if index.y < old(self).min_elem.y { index.y } else { old(self).min_elem.y },
            }),
            final(self).max_elem == (MatrixIndex {
                x: if index.x > old(self).max_elem.x { index.x } else { old(self).max_elem.x },
                y: if index.y > old(self).max_elem.y { index.y } else { old(self).max_elem.y },
            }),
    {
        let ghost s = self.matrix@;
        let ghost k = index.flat();
        proof {
            lemma_count_bounds(s);
            lemma_count_update(s, k, Some(chunk));
            lemma_flatten_roundtrip(index, 0);
        }
        self.len = self.len + 1;
        *self.matrix.index_mut(index) = Some(chunk);
        let ghost n = self.matrix@;
        let ghost was_empty = forall|j: int| 0 <= j < 65536 ==> s[j] is None;
        if index.x < self.min_elem.x {
            self.min_elem.x = index.x;
        }
        if index.y < self.min_elem.y {
            self.min_elem.y = index.y;
        }
        if index.x > self.max_elem.x {
            self.max_elem.x = index.x;
        }
        if index.y > self.max_elem.y {
            self.max_elem.y = index.y;
        }
        proof {
            let lo = self.min_elem;
            let hi = self.max_elem;
            assert(filled(n, k));
            assert forall|j: int| filled(n, j) implies #[trigger] in_box(j, lo, hi) by {
                if j != k {
                    assert(filled(s, j));
                    assert(in_box(j, old(self).min_elem, old(self).max_elem));
                }
            }
            if was_empty {
                assert(lo == index && hi == index);
            } else {
                let w = choose|j: int| 0 <= j < 65536 && s[j] is Some;
                assert(filled(s, w));
                let a = choose|j: int| #[trigger] filled(s, j) && MatrixIndex::unflat(j).x
                    == old(self).min_elem.x;
                let b = choose|j: int| #[trigger] filled(s, j) && MatrixIndex::unflat(j).x
                    == old(self).max_elem.x;
                let c = choose|j: int| #[trigger] filled(s, j) && MatrixIndex::unflat(j).y
                    == old(self).min_elem.y;
                let d = choose|j: int| #[trigger] filled(s, j) && MatrixIndex::unflat(j).y
                    == old(self).max_elem.y;
                assert(a != k && b != k && c != k && d != k);
                assert(filled(n, a) && filled(n, b) && filled(n, c) && filled(n, d));
            }
            assert(filled(n, k));
        }
    }
}

/// Whether the flat position `k` of the box `lo`..`hi` comes before row `y`, column `x`
/// in row-major order.
pub open spec fn scanned(k: int, lo: MatrixIndex, hi: MatrixIndex, y: int, x: int) -> bool {
    let i = MatrixIndex::unflat(k);
    in_box(k, lo, hi) && (i.y < y || (i.y == y && i.x < x))
}

/// The scan of the rows `lo.y..y` and of row `y` up to column `x` of the box `lo`..`hi`
/// has found the bounding box `nlo`..`nhi` of the filled entries of `s`, with witnesses.
pub open spec fn scan_inv<T>(
    s: Seq<Option<T>>,
    lo: MatrixIndex,
    hi: MatrixIndex,
    y: int,
    x: int,
    nlo: MatrixIndex,
    nhi: MatrixIndex,
    found: bool,
    w: (int, int, int, int),
) -> bool {
    &&& forall|k: int| #[trigger] filled(s, k) && scanned(k, lo, hi, y, x) ==> in_box(k, nlo, nhi)
    &&& !found ==> nlo == MatrixIndex { x: 255, y: 255 } && nhi == MatrixIndex { x: 0, y: 0 }
    &&& !found ==> forall|k: int| #[trigger] filled(s, k) ==> !scanned(k, lo, hi, y, x)
    &&& found ==> {
        &&& filled(s, w.0) && MatrixIndex::unflat(w.0).x == nlo.x
        &&& filled(s, w.1) && MatrixIndex::unflat(w.1).x == nhi.x
        &&& filled(s, w.2) && MatrixIndex::unflat(w.2).y == nlo.y
        &&& filled(s, w.3) && MatrixIndex::unflat(w.3).y == nhi.y
    }
}

impl<T> MatrixBounded<T> {
    /// Takes the value out of the filled entry `index` and shrinks the box to the smallest one
    /// that holds the entries left, found by scanning the old box row by row.
    pub fn remove(&mut self, index: MatrixIndex) -> (r: T)
        requires
            old(self).wf(),
            old(self).at(index) is Some,
        ensures
            final(self).wf(),
            Some(r) == old(self).at(index),
            final(self).matrix@ == old(self).matrix@.update(index.flat(), None),
            final(self).len == old(self).len - 1,
    {
        let ghost s = self.matrix@;
        proof {
            lemma_count_bounds(s);
            lemma_count_update(s, index.flat(), None);
            lemma_flatten_roundtrip(index, 0);
        }
        let r = self.matrix.index_mut(index).take().unwrap();
        let ghost n = self.matrix@;
        let min_x = self.min_elem.x;
        let max_x = self.max_elem.x;
        let min_y = self.min_elem.y;
        let max_y = self.max_elem.y;
        let ghost olo = self.min_elem;
        let ghost ohi = self.max_elem;
        proof {
            assert(filled(s, index.flat()));
            assert(in_box(index.flat(), olo, ohi));
        }
        self.min_elem.x = 255;
        self.min_elem.y = 255;
        self.max_elem.x = 0;
        self.max_elem.y = 0;
        self.len = self.len - 1;
        let ghost mut found = false;
        let ghost mut w: (int, int, int, int) = (0, 0, 0, 0);
        let mut y: u16 = min_y as u16;
        while y <= max_y as u16
            invariant
                self.matrix@ == n,
                self.matrix.wf(),
                self.len == count_some(n),
                self.len == old(self).len - 1,
                olo == (MatrixIndex { x: min_x, y: min_y }),
                ohi == (MatrixIndex { x: max_x, y: max_y }),
                min_x <= max_x,
                min_y <= y <= max_y + 1,
                scan_inv(n, olo, ohi, y as int, min_x as int, self.min_elem, self.max_elem, found, w),
            decreases max_y + 1 - y,
        {
            let mut x: u16 = min_x as u16;
            while x <= max_x as u16
                invariant
                    self.matrix@ == n,
                    self.matrix.wf(),
                    self.len == count_some(n),
                    self.len == old(self).len - 1,
                    olo == (MatrixIndex { x: min_x, y: min_y }),
                    ohi == (MatrixIndex { x: max_x, y: max_y }),
                    min_y <= y <= max_y,
                    min_x <= x <= max_x + 1,
                    scan_inv(n, olo, ohi, y as int, x as int, self.min_elem, self.max_elem, found, w),
                decreases max_x + 1 - x,
            {
                let i = MatrixIndex { x: x as u8, y: y as u8 };
                let ghost k = i.flat();
                proof {
                    lemma_flatten_roundtrip(i, 0);
                }
                if self.matrix.index(i).is_some() {
                    proof {
                        if !found {
                            w = (k, k, k, k);
                        } else {
                            if (x as u8) < self.min_elem.x {
                                w.0 = k;
                            }
                            if (x as u8) > self.max_elem.x {
                                w.1 = k;
                            }
                            if (y as u8) < self.min_elem.y {
                                w.2 = k;
                            }
                            if (y as u8) > self.max_elem.y {
                                w.3 = k;
                            }
                        }
                    }
                    if (x as u8) < self.min_elem.x {
                        self.min_elem.x = x as u8;
                    }
                    if (y as u8) < self.min_elem.y {
                        self.min_elem.y = y as u8;
                    }
                    if (x as u8) > self.max_elem.x {
                        self.max_elem.x = x as u8;
                    }
                    if (y as u8) > self.max_elem.y {
                        self.max_elem.y = y as u8;
                    }
                    proof {
                        found = true;
                    }
                }
                proof {
                    assert forall|j: int| #[trigger]
                        filled(n, j) && scanned(j, olo, ohi, y as int, x + 1) implies in_box(
                        j,
                        self.min_elem,
                        self.max_elem,
                    ) by {
                        if j != k {
                            assert(scanned(j, olo, ohi, y as int, x as int));
                        }
                    }
                    if !found {
                        assert forall|j: int| #[trigger] filled(n, j) implies !scanned(
                            j,
                            olo,
                            ohi,
                            y as int,
                            x + 1,
                        ) by {
                            if j != k {
                                assert(!scanned(j, olo, ohi, y as int, x as int));
                            }
                        }
                    }
                }
                x = x + 1;
            }
            proof {
                assert forall|j: int| #[trigger]
                    filled(n, j) && scanned(j, olo, ohi, y + 1, min_x as int) implies in_box(
                    j,
                    self.min_elem,
                    self.max_elem,
                ) by {
                    assert(scanned(j, olo, ohi, y as int, x as int));
                }
                if !found {
                    assert forall|j: int| #[trigger] filled(n, j) implies !scanned(
                        j,
                        olo,
                        ohi,
                        y + 1,
                        min_x as int,
                    ) by {
                        assert(!scanned(j, olo, ohi, y as int, x as int));
                    }
                }
            }
            y = y + 1;
        }
        proof {
            let lo = self.min_elem;
            let hi = self.max_elem;
            assert forall|j: int| filled(n, j) implies #[trigger] in_box(j, lo, hi) by {
                assert(filled(s, j));
                assert(in_box(j, olo, ohi));
                assert(scanned(j, olo, ohi, y as int, min_x as int));
            }
            if exists|j: int| filled(n, j) {
                let j = choose|j: int| filled(n, j);
                if !found {
                    assert(filled(s, j));
                    assert(in_box(j, olo, ohi));
                    assert(scanned(j, olo, ohi, y as int, min_x as int));
                }
                assert(filled(n, w.0) && filled(n, w.1) && filled(n, w.2) && filled(n, w.3));
            } else {
                assert forall|j: int| 0 <= j < 65536 implies n[j] is None by {
                    assert(!filled(n, j));
                }
            }
            if forall|j: int| 0 <= j < 65536 ==> n[j] is None {
                if found {
                    assert(filled(n, w.0));
                }
            }
        }
        r
    }
}

/// `r` lists, in row-major order, exactly those entries of `s` that are filled and come
/// before row `y`, column `x` of the box `lo`..`hi`, each with its value.
pub open spec fn lists_filled<T>(
    s: Seq<Option<T>>,
    r: Seq<(MatrixIndex, T)>,
    lo: MatrixIndex,
    hi: MatrixIndex,
    y: int,
    x: int,
) -> bool {
    &&& forall|i: int|
        0 <= i < r.len() ==> filled(s, (#[trigger] r[i]).0.flat()) && s[r[i].0.flat()] == Some(
            r[i].1,
        ) && scanned(r[i].0.flat(), lo, hi, y, x)
    &&& forall|i: int, j: int| 0 <= i < j < r.len() ==> (#[trigger] r[i]).0.flat() < (#[trigger] r[j]).0.flat()
    &&& forall|k: int|
        #[trigger] filled(s, k) && scanned(k, lo, hi, y, x) ==> exists|i: int|
            0 <= i < r.len() && (#[trigger] r[i]).0.flat() == k
}

/// `r` lists exactly the filled entries of `s` with their values, in row-major order.
pub open spec fn is_listing<T>(s: Seq<Option<T>>, r: Seq<(MatrixIndex, T)>) -> bool {
    &&& forall|i: int|
        0 <= i < r.len() ==> filled(s, (#[trigger] r[i]).0.flat()) && s[r[i].0.flat()] == Some(
            r[i].1,
        )
    &&& forall|i: int, j: int| 0 <= i < j < r.len() ==> (#[trigger] r[i]).0.flat() < (#[trigger] r[j]).0.flat()
    &&& forall|k: int| #[trigger] filled(s, k) ==> exists|i: int| 0 <= i < r.len() && (#[trigger] r[i]).0.flat() == k
}

/// A listing in order of the filled entries of `s` has one item for each of them.
proof fn lemma_listing_len<T>(s: Seq<Option<T>>, r: Seq<(MatrixIndex, T)>)
    requires
        s.len() <= 65536,
        forall|i: int| 0 <= i < r.len() ==> 0 <= (#[trigger] r[i]).0.flat() < s.len() && s[r[i].0.flat()] is Some,
        forall|i: int, j: int| 0 <= i < j < r.len() ==> (#[trigger] r[i]).0.flat() < (#[trigger] r[j]).0.flat(),
        forall|k: int| 0 <= k < s.len() && #[trigger] s[k] is Some ==> exists|i: int| 0 <= i < r.len() && (#[trigger] r[i]).0.flat() == k,
    ensures
        r.len() == count_some(s),
    decreases s.len(),
{
    if s.len() == 0 {
        if r.len() > 0 {
            assert(0 <= r[0].0.flat() < s.len());
        }
    } else {
        let p = s.len() - 1;
        let t = s.drop_last();
        if s[p] is Some {
            let i = choose|i: int| 0 <= i < r.len() && (#[trigger] r[i]).0.flat() == p;
            if i < r.len() - 1 {
                assert(r[i].0.flat() < r[r.len() - 1].0.flat());
            }
            let q = r.drop_last();
            assert forall|k: int| 0 <= k < t.len() && #[trigger] t[k] is Some implies exists|j: int|
                0 <= j < q.len() && (#[trigger] q[j]).0.flat() == k by {
                assert(s[k] is Some);
                let j = choose|j: int| 0 <= j < r.len() && (#[trigger] r[j]).0.flat() == k;
                assert(j != r.len() - 1);
                assert(q[j] == r[j]);
            }
            assert forall|j: int| 0 <= j < q.len() implies 0 <= (#[trigger] q[j]).0.flat() < t.len() && t[q[j].0.flat()] is Some by {
                assert(q[j] == r[j]);
                assert(r[j].0.flat() < r[r.len() - 1].0.flat());
            }
            assert forall|a: int, b: int| 0 <= a < b < q.len() implies (#[trigger] q[a]).0.flat() < (#[trigger] q[b]).0.flat() by {
                assert(q[a] == r[a] && q[b] == r[b]);
            }
            lemma_listing_len(t, q);
        } else {
            assert forall|k: int| 0 <= k < t.len() && #[trigger] t[k] is Some implies exists|j: int|
                0 <= j < r.len() && (#[trigger] r[j]).0.flat() == k by {
                assert(s[k] is Some);
            }
            assert forall|j: int| 0 <= j < r.len() implies 0 <= (#[trigger] r[j]).0.flat() < t.len() && t[r[j].0.flat()] is Some by {
                assert(r[j].0.flat() != p);
            }
            lemma_listing_len(t, r);
        }
        assert(t == s.drop_last());
    }
}

/// The entries `r` with their references read as values.
pub open spec fn deref_all<T>(r: Seq<(MatrixIndex, &T)>) -> Seq<(MatrixIndex, T)> {
    r.map_values(|e: (MatrixIndex, &T)| (e.0, *e.1))
}

impl<T> MatrixBounded<T> {
    /// Every filled entry with its index, in row-major order.
    pub fn iter(&self) -> (r: Vec<(MatrixIndex, &T)>)
        requires
            self.wf(),
        ensures
            is_listing(self.matrix@, deref_all(r@)),
            r@.len() == self.len,
    {
        let r = self.iter_listing();
        proof {
            let l = deref_all(r@);
            assert forall|k: int| 0 <= k < self.matrix@.len() && #[trigger] self.matrix@[k] is Some implies exists|i: int|
                0 <= i < l.len() && (#[trigger] l[i]).0.flat() == k by {
                assert(filled(self.matrix@, k));
            }
            lemma_listing_len(self.matrix@, l);
        }
        r
    }

    /// The listing behind `iter`: a scan of the stored bounds, row by row.
    fn iter_listing(&self) -> (r: Vec<(MatrixIndex, &T)>)
        requires
            self.wf(),
        ensures
            is_listing(self.matrix@, deref_all(r@)),
    {
        let mut out: Vec<(MatrixIndex, &T)> = Vec::new();
        let lo = self.min_elem;
        let hi = self.max_elem;
        if lo.x > hi.x || lo.y > hi.y {
            proof {
                assert forall|k: int| #[trigger] filled(self.matrix@, k) implies false by {
                    assert(in_box(k, lo, hi));
                }
                assert(deref_all(out@) =~= Seq::empty());
            }
            return out;
        }
        let mut y: u16 = lo.y as u16;
        while y <= hi.y as u16
            invariant
                self.wf(),
                lo == self.min_elem,
                hi == self.max_elem,
                lo.x <= hi.x,
                lo.y <= y <= hi.y + 1,
                lists_filled(self.matrix@, deref_all(out@), lo, hi, y as int, lo.x as int),
            decreases hi.y + 1 - y,
        {
            let mut x: u16 = lo.x as u16;
            while x <= hi.x as u16
                invariant
                    self.wf(),
                    lo == self.min_elem,
                    hi == self.max_elem,
                    lo.y <= y <= hi.y,
                    lo.x <= x <= hi.x + 1,
                    lists_filled(self.matrix@, deref_all(out@), lo, hi, y as int, x as int),
                decreases hi.x + 1 - x,
            {
                let idx = MatrixIndex { x: x as u8, y: y as u8 };
                let ghost k = idx.flat();
                let ghost before = deref_all(out@);
                proof {
                    lemma_flatten_roundtrip(idx, 0);
                }
                match self.matrix.index(idx) {
                    Some(c) => {
                        out.push((idx, c));
                        proof {
                            let after = deref_all(out@);
                            assert(after =~= before.push((idx, *c)));
                            assert forall|kk: int| #[trigger]
                                filled(self.matrix@, kk) && scanned(kk, lo, hi, y as int, x + 1)
                                implies exists|i: int|
                                0 <= i < after.len() && (#[trigger] after[i]).0.flat() == kk by {
                                if kk == k {
                                    assert(after[after.len() - 1].0.flat() == kk);
                                } else {
                                    assert(scanned(kk, lo, hi, y as int, x as int));
                                    let i = choose|i: int|
                                        0 <= i < before.len() && (#[trigger] before[i]).0.flat()
                                            == kk;
                                    assert(after[i] == before[i]);
                                }
                            }
                        }
                    },
                    None => {
                        proof {
                            assert forall|kk: int| #[trigger]
                                filled(self.matrix@, kk) && scanned(kk, lo, hi, y as int, x + 1)
                                implies exists|i: int|
                                0 <= i < before.len() && (#[trigger] before[i]).0.flat() == kk by {
                                assert(kk != k);
                                assert(scanned(kk, lo, hi, y as int, x as int));
                            }
                        }
                    },
                }
                x = x + 1;
            }
            proof {
                let r = deref_all(out@);
                assert forall|kk: int| #[trigger]
                    filled(self.matrix@, kk) && scanned(kk, lo, hi, y + 1, lo.x as int)
                    implies exists|i: int| 0 <= i < r.len() && (#[trigger] r[i]).0.flat() == kk by {
                    assert(scanned(kk, lo, hi, y as int, x as int));
                }
            }
            y = y + 1;
        }
        proof {
            let r = deref_all(out@);
            assert forall|kk: int| #[trigger] filled(self.matrix@, kk) implies exists|i: int|
                0 <= i < r.len() && (#[trigger] r[i]).0.flat() == kk by {
                assert(in_box(kk, lo, hi));
                assert(scanned(kk, lo, hi, y as int, lo.x as int));
            }
        }
        out
    }
}

impl<T> MatrixBounded<T> {
    /// Every filled entry, as a reference to the whole entry, with its index, in row-major
    /// order.
    pub fn iter_opt(&self) -> (r: Vec<(MatrixIndex, &Option<T>)>)
        requires
            self.wf(),
        ensures
            forall|i: int|
                0 <= i < r@.len() ==> filled(self.matrix@, (#[trigger] r@[i]).0.flat()) && *r@[i].1
                    == self.matrix@[r@[i].0.flat()],
            forall|i: int, j: int|
                0 <= i < j < r@.len() ==> (#[trigger] r@[i]).0.flat() < (#[trigger] r@[j]).0.flat(),
            forall|k: int| #[trigger]
                filled(self.matrix@, k) ==> exists|i: int|
                    0 <= i < r@.len() && (#[trigger] r@[i]).0.flat() == k,
            r@.len() == self.len,
    {
        let all = self.iter();
        let ghost l = deref_all(all@);
        let mut out: Vec<(MatrixIndex, &Option<T>)> = Vec::new();
        let mut i: usize = 0;
        while i < all.len()
            invariant
                self.wf(),
                l == deref_all(all@),
                is_listing(self.matrix@, l),
                i <= all@.len(),
                out@.len() == i,
                forall|j: int|
                    0 <= j < i ==> (#[trigger] out@[j]).0 == l[j].0 && *out@[j].1
                        == self.matrix@[l[j].0.flat()],
            decreases all@.len() - i,
        {
            let idx = all[i].0;
            out.push((idx, self.matrix.index(idx)));
            i = i + 1;
        }
        proof {
            assert forall|a: int, b: int| 0 <= a < b < out@.len() implies (#[trigger] out@[a]).0.flat()
                < (#[trigger] out@[b]).0.flat() by {
                assert(l[a].0.flat() < l[b].0.flat());
            }
            assert forall|k: int| #[trigger] filled(self.matrix@, k) implies exists|j: int|
                0 <= j < out@.len() && (#[trigger] out@[j]).0.flat() == k by {
                let j = choose|j: int| 0 <= j < l.len() && (#[trigger] l[j]).0.flat() == k;
                assert(out@[j].0.flat() == k);
            }
        }
        out
    }
}

/// Whether some entry of `out` was taken from the flat position `k`.
pub open spec fn taken_at<T>(out: Seq<(MatrixIndex, T)>, k: int) -> bool {
    exists|i: int| 0 <= i < out.len() && (#[trigger] out[i]).0.flat() == k
}

impl<T> MatrixBounded<T> {
    /// Takes out, in row-major order over the box, every entry for which `cond` holds, and
    /// returns them with their indices. `cond` may hold only on filled entries of the box.
    pub fn take_if(&mut self, cond: impl Fn(MatrixIndex) -> bool) -> (out: Vec<(MatrixIndex, T)>)
        requires
            old(self).wf(),
            forall|i: MatrixIndex| call_requires(cond, (i,)),
            forall|i: MatrixIndex|
                in_box(i.flat(), old(self).min_elem, old(self).max_elem) && call_ensures(
                    cond,
                    (i,),
                    true,
                ) ==> #[trigger] old(self).at(i) is Some,
        ensures
            final(self).wf(),
            forall|i: int|
                0 <= i < out@.len() ==> call_ensures(cond, ((#[trigger] out@[i]).0,), true)
                    && old(self).matrix@[out@[i].0.flat()] == Some(out@[i].1),
            forall|i: int, j: int|
                0 <= i < j < out@.len() ==> (#[trigger] out@[i]).0.flat() < (#[trigger] out@[j]).0.flat(),
            forall|k: int|
                0 <= k < 65536 ==> #[trigger] final(self).matrix@[k] == if taken_at(out@, k) {
                    None
                } else {
                    old(self).matrix@[k]
                },
            forall|k: int| #[trigger]
                filled(old(self).matrix@, k) && !taken_at(out@, k) ==> call_ensures(
                    cond,
                    (MatrixIndex::unflat(k),),
                    false,
                ),
    {
        let ghost o = self.matrix@;
        let lo = self.min_elem;
        let hi = self.max_elem;
        let mut out: Vec<(MatrixIndex, T)> = Vec::new();
        if lo.x > hi.x || lo.y > hi.y {
            proof {
                assert forall|k: int| #[trigger] filled(o, k) implies false by {
                    assert(in_box(k, lo, hi));
                }
            }
            return out;
        }
        let mut y: u16 = lo.y as u16;
        while y <= hi.y as u16
            invariant
                self.wf(),
                lo == old(self).min_elem,
                hi == old(self).max_elem,
                o == old(self).matrix@,
                is_bounding_box(o, lo, hi),
                lo.x <= hi.x,
                lo.y <= y <= hi.y + 1,
                forall|i: MatrixIndex| call_requires(cond, (i,)),
                forall|i: MatrixIndex|
                    in_box(i.flat(), lo, hi) && call_ensures(cond, (i,), true) ==> #[trigger] old(self).at(i) is Some,
                forall|i: int|
                    0 <= i < out@.len() ==> call_ensures(cond, ((#[trigger] out@[i]).0,), true)
                        && o[out@[i].0.flat()] == Some(out@[i].1) && scanned(
                        out@[i].0.flat(),
                        lo,
                        hi,
                        y as int,
                        lo.x as int,
                    ),
                forall|i: int, j: int|
                    0 <= i < j < out@.len() ==> (#[trigger] out@[i]).0.flat() < (#[trigger] out@[j]).0.flat(),
                forall|k: int|
                    0 <= k < 65536 ==> #[trigger] self.matrix@[k] == if taken_at(out@, k) {
                        None
                    } else {
                        o[k]
                    },
                forall|k: int| #[trigger]
                    filled(o, k) && scanned(k, lo, hi, y as int, lo.x as int) && !taken_at(out@, k)
                        ==> call_ensures(cond, (MatrixIndex::unflat(k),), false),
            decreases hi.y + 1 - y,
        {
            let mut x: u16 = lo.x as u16;
            while x <= hi.x as u16
                invariant
                    self.wf(),
                    lo == old(self).min_elem,
                    hi == old(self).max_elem,
                    o == old(self).matrix@,
                    is_bounding_box(o, lo, hi),
                    lo.y <= y <= hi.y,
                    lo.x <= x <= hi.x + 1,
                    forall|i: MatrixIndex| call_requires(cond, (i,)),
                    forall|i: MatrixIndex|
                        in_box(i.flat(), lo, hi) && call_ensures(cond, (i,), true) ==> #[trigger] old(self).at(i) is Some,
                    forall|i: int|
                        0 <= i < out@.len() ==> call_ensures(cond, ((#[trigger] out@[i]).0,), true)
                            && o[out@[i].0.flat()] == Some(out@[i].1) && scanned(
                            out@[i].0.flat(),
                            lo,
                            hi,
                            y as int,
                            x as int,
                        ),
                    forall|i: int, j: int|
                        0 <= i < j < out@.len() ==> (#[trigger] out@[i]).0.flat() < (#[trigger] out@[j]).0.flat(),
                    forall|k: int|
                        0 <= k < 65536 ==> #[trigger] self.matrix@[k] == if taken_at(out@, k) {
                            None
                        } else {
                            o[k]
                        },
                    forall|k: int| #[trigger]
                        filled(o, k) && scanned(k, lo, hi, y as int, x as int) && !taken_at(out@, k)
                            ==> call_ensures(cond, (MatrixIndex::unflat(k),), false),
                decreases hi.x + 1 - x,
            {
                let idx = MatrixIndex { x: x as u8, y: y as u8 };
                let ghost k = idx.flat();
                proof {
                    lemma_flatten_roundtrip(idx, 0);
                    assert(in_box(k, lo, hi));
                    assert forall|i: int| 0 <= i < out@.len() implies (#[trigger] out@[i]).0.flat()
                        < k by {
                        lemma_flatten_order(out@[i].0, idx);
                        lemma_flatten_roundtrip(out@[i].0, 0);
                    }
                }
                let ghost before = out@;
                let ghost m0 = self.matrix@;
                if cond(idx) {
                    proof {
                        assert(old(self).at(idx) is Some);
                        assert(!taken_at(before, k));
                        assert(m0[k] == o[k]);
                    }
                    let v = self.remove(idx);
                    out.push((idx, v));
                    proof {
                        assert(out@[out@.len() - 1].0.flat() == k);
                        assert forall|kk: int| 0 <= kk < 65536 implies #[trigger] self.matrix@[kk]
                            == if taken_at(out@, kk) {
                            None
                        } else {
                            o[kk]
                        } by {
                            if kk == k {
                                assert(taken_at(out@, kk));
                            } else {
                                if taken_at(out@, kk) {
                                    let i = choose|i: int|
                                        0 <= i < out@.len() && (#[trigger] out@[i]).0.flat() == kk;
                                    assert(out@[i] == before[i]);
                                    assert(taken_at(before, kk));
                                } else {
                                    assert forall|i: int| 0 <= i < before.len() implies (#[trigger] before[i]).0.flat() != kk by {
                                        assert(out@[i] == before[i]);
                                    }
                                }
                            }
                        }
                        assert forall|kk: int| #[trigger]
                            filled(o, kk) && scanned(kk, lo, hi, y as int, x + 1) && !taken_at(out@, kk)
                            implies call_ensures(cond, (MatrixIndex::unflat(kk),), false) by {
                            assert(kk != k);
                            assert(scanned(kk, lo, hi, y as int, x as int));
                            if taken_at(before, kk) {
                                let i = choose|i: int|
                                    0 <= i < before.len() && (#[trigger] before[i]).0.flat() == kk;
                                assert(out@[i] == before[i]);
                            }
                        }
                    }
                } else {
                    proof {
                        assert forall|kk: int| #[trigger]
                            filled(o, kk) && scanned(kk, lo, hi, y as int, x + 1) && !taken_at(out@, kk)
                            implies call_ensures(cond, (MatrixIndex::unflat(kk),), false) by {
                            if kk != k {
                                assert(scanned(kk, lo, hi, y as int, x as int));
                            }
                        }
                    }
                }
                x = x + 1;
            }
            proof {
                assert forall|kk: int| #[trigger]
                    filled(o, kk) && scanned(kk, lo, hi, y + 1, lo.x as int) && !taken_at(out@, kk)
                    implies call_ensures(cond, (MatrixIndex::unflat(kk),), false) by {
                    assert(scanned(kk, lo, hi, y as int, x as int));
                }
                assert forall|i: int| 0 <= i < out@.len() implies scanned(
                    (#[trigger] out@[i]).0.flat(),
                    lo,
                    hi,
                    y + 1,
                    lo.x as int,
                ) by {
                    assert(scanned(out@[i].0.flat(), lo, hi, y as int, x as int));
                }
            }
            y = y + 1;
        }
        proof {
            assert forall|kk: int| #[trigger]
                filled(o, kk) && !taken_at(out@, kk) implies call_ensures(
                cond,
                (MatrixIndex::unflat(kk),),
                false,
            ) by {
                assert(in_box(kk, lo, hi));
                assert(scanned(kk, lo, hi, y as int, lo.x as int));
            }
        }
        out
    }
}

/// The box of a grid is determined by its filled entries: two boxes that both bound the same
/// entries tightly are the same box.
pub proof fn lemma_bounding_box_unique<T>(
    s: Seq<Option<T>>,
    lo1: MatrixIndex,
    hi1: MatrixIndex,
    lo2: MatrixIndex,
    hi2: MatrixIndex,
)
    requires
        s.len() == 65536,
        is_bounding_box(s, lo1, hi1),
        is_bounding_box(s, lo2, hi2),
    ensures
        lo1 == lo2,
        hi1 == hi2,
{
    if exists|k: int| filled(s, k) {
        let a = choose|k: int| #[trigger] filled(s, k) && MatrixIndex::unflat(k).x == lo1.x;
        let b = choose|k: int| #[trigger] filled(s, k) && MatrixIndex::unflat(k).x == lo2.x;
        assert(in_box(a, lo2, hi2) && in_box(b, lo1, hi1));
        let c = choose|k: int| #[trigger] filled(s, k) && MatrixIndex::unflat(k).x == hi1.x;
        let d = choose|k: int| #[trigger] filled(s, k) && MatrixIndex::unflat(k).x == hi2.x;
        assert(in_box(c, lo2, hi2) && in_box(d, lo1, hi1));
        let e = choose|k: int| #[trigger] filled(s, k) && MatrixIndex::unflat(k).y == lo1.y;
        let f = choose|k: int| #[trigger] filled(s, k) && MatrixIndex::unflat(k).y == lo2.y;
        assert(in_box(e, lo2, hi2) && in_box(f, lo1, hi1));
        let g = choose|k: int| #[trigger] filled(s, k) && MatrixIndex::unflat(k).y == hi1.y;
        let h = choose|k: int| #[trigger] filled(s, k) && MatrixIndex::unflat(k).y == hi2.y;
        assert(in_box(g, lo2, hi2) && in_box(h, lo1, hi1));
    } else {
        assert forall|k: int| 0 <= k < 65536 implies s[k] is None by {
            assert(!filled(s, k));
        }
    }
}

/// Removing what was just inserted gives back the grid as it was: the same entries, the same
/// count and the same box.
pub proof fn lemma_insert_then_remove<T>(
    m: MatrixBounded<T>,
    inserted: MatrixBounded<T>,
    removed: MatrixBounded<T>,
    index: MatrixIndex,
    v: T,
)
    requires
        m.wf(),
        m.at(index) is None,
        inserted.wf(),
        inserted.matrix@ == m.matrix@.update(index.flat(), Some(v)),
        inserted.len == m.len + 1,
        removed.wf(),
        removed.matrix@ == inserted.matrix@.update(index.flat(), None),
        removed.len == inserted.len - 1,
    ensures
        removed.matrix@ == m.matrix@,
        removed.len == m.len,
        removed.min_elem == m.min_elem,
        removed.max_elem == m.max_elem,
{
    lemma_flatten_roundtrip(index, 0);
    assert(removed.matrix@ =~= m.matrix@);
    lemma_bounding_box_unique(m.matrix@, m.min_elem, m.max_elem, removed.min_elem, removed.max_elem);
}

/// Two grids with the same filled entries have the same count and the same bounding boxes.
pub proof fn lemma_same_pattern<A, B>(s1: Seq<Option<A>>, s2: Seq<Option<B>>, lo: MatrixIndex, hi: MatrixIndex)
    requires
        s1.len() == s2.len(),
        forall|k: int| 0 <= k < s1.len() ==> (#[trigger] s1[k] is Some <==> s2[k] is Some),
    ensures
        count_some(s1) == count_some(s2),
        s1.len() == 65536 ==> (is_bounding_box(s1, lo, hi) <==> is_bounding_box(s2, lo, hi)),
    decreases s1.len(),
{
    if s1.len() > 0 {
        lemma_same_pattern(s1.drop_last(), s2.drop_last(), lo, hi);
        assert(s1.last() is Some <==> s2.last() is Some);
    }
    if s1.len() == 65536 {
        assert forall|k: int| filled(s1, k) <==> #[trigger] filled(s2, k) by {
            if 0 <= k < 65536 {
                assert(s1[k] is Some <==> s2[k] is Some);
            }
        }
        if is_bounding_box(s1, lo, hi) {
            if exists|k: int| filled(s2, k) {
                let j = choose|k: int| filled(s2, k);
                assert(filled(s1, j));
                let a = choose|k: int| #[trigger] filled(s1, k) && MatrixIndex::unflat(k).x == lo.x;
                let b = choose|k: int| #[trigger] filled(s1, k) && MatrixIndex::unflat(k).x == hi.x;
                let c = choose|k: int| #[trigger] filled(s1, k) && MatrixIndex::unflat(k).y == lo.y;
                let d = choose|k: int| #[trigger] filled(s1, k) && MatrixIndex::unflat(k).y == hi.y;
                assert(filled(s2, a) && filled(s2, b) && filled(s2, c) && filled(s2, d));
            }
            if forall|k: int| 0 <= k < 65536 ==> s2[k] is None {
                assert forall|k: int| 0 <= k < 65536 implies s1[k] is None by {
                    assert(s2[k] is None);
                }
            }
        }
        if is_bounding_box(s2, lo, hi) {
            if exists|k: int| filled(s1, k) {
                let j = choose|k: int| filled(s1, k);
                assert(filled(s2, j));
                let a = choose|k: int| #[trigger] filled(s2, k) && MatrixIndex::unflat(k).x == lo.x;
                let b = choose|k: int| #[trigger] filled(s2, k) && MatrixIndex::unflat(k).x == hi.x;
                let c = choose|k: int| #[trigger] filled(s2, k) && MatrixIndex::unflat(k).y == lo.y;
                let d = choose|k: int| #[trigger] filled(s2, k) && MatrixIndex::unflat(k).y == hi.y;
                assert(filled(s1, a) && filled(s1, b) && filled(s1, c) && filled(s1, d));
            }
            if forall|k: int| 0 <= k < 65536 ==> s1[k] is None {
                assert forall|k: int| 0 <= k < 65536 implies s2[k] is None by {
                    assert(s1[k] is None);
                }
            }
        }
    }
}
impl<T> Default for MatrixBounded<T> {
    fn default() -> (m: Self)
        ensures
            m.wf(),
            m.len == 0,
            forall|k: int| 0 <= k < 65536 ==> m.matrix@[k] is None,
    {
        MatrixBounded::new()
    }
}

/// Walks the positions of a box row by row, from its lower corner: the position that comes
/// next, the first column of the box, and its upper corner.
pub struct MatrixBoundedIterMut {
    min_elem_x: u8,
    min_elem: MatrixIndex,
    max_elem: MatrixIndex,
}

impl View for MatrixBoundedIterMut {
    type V = (u8, MatrixIndex, MatrixIndex);

    /// (first column, next position, upper corner).
    closed spec fn view(&self) -> (u8, MatrixIndex, MatrixIndex) {
        (self.min_elem_x, self.min_elem, self.max_elem)
    }
}

/// The position that a walk in state `s` looks at next: past the end of a row, the first
/// column of the next row.
pub open spec fn walk_pos(s: (u8, MatrixIndex, MatrixIndex)) -> MatrixIndex {
    if s.1.x > s.2.x {
        MatrixIndex { x: s.0, y: (s.1.y + 1) as u8 }
    } else {
        s.1
    }
}

/// One step of the walk: the position handed out (none when the box has no column, or once
/// past its last row) and the state after it.
pub open spec fn walk_step(s: (u8, MatrixIndex, MatrixIndex)) -> (Option<MatrixIndex>, (u8, MatrixIndex, MatrixIndex)) {
    if s.0 > s.2.x {
        (None, s)
    } else {
        let m = walk_pos(s);
        if m.y > s.2.y {
            (None, (s.0, m, s.2))
        } else {
            (Some(m), (s.0, MatrixIndex { x: (m.x + 1) as u8, y: m.y }, s.2))
        }
    }
}

/// One step of the walk stays within the `u8` range.
pub open spec fn walk_step_ok(s: (u8, MatrixIndex, MatrixIndex)) -> bool {
    s.0 <= s.2.x ==> {
        &&& s.1.x > s.2.x ==> s.1.y < 255
        &&& walk_pos(s).y <= s.2.y ==> walk_pos(s).x < 255
    }
}

impl MatrixBoundedIterMut {
    /// A walk over the box from `min_elem` to `max_elem`, row by row, starting at `min_elem`.
    pub fn new(min_elem: MatrixIndex, max_elem: MatrixIndex) -> (r: Self)
        ensures
            r@ == (min_elem.x, min_elem, max_elem),
    {
        MatrixBoundedIterMut { min_elem_x: min_elem.x, min_elem, max_elem }
    }

    /// The next position of the box, or `None` once the walk is over.
    pub fn next(&mut self) -> (r: Option<MatrixIndex>)
        requires
            walk_step_ok(old(self)@),
        ensures
            (r, final(self)@) == walk_step(old(self)@),
    {
        if self.min_elem_x > self.max_elem.x {
            return None;
        }
        if self.min_elem.x > self.max_elem.x {
            self.min_elem.x = self.min_elem_x;
            self.min_elem.y = self.min_elem.y + 1;
        }
        if self.min_elem.y > self.max_elem.y {
            return None;
        }
        let next = self.min_elem;
        self.min_elem.x = self.min_elem.x + 1;
        Some(next)
    }
}

/// The positions of the row `y` from column `x` to column `hi_x`, in order.
pub open spec fn row_from(x: int, y: int, hi_x: int) -> Seq<MatrixIndex> {
    Seq::new(
        if x <= hi_x {
            (hi_x + 1 - x) as nat
        } else {
            0
        },
        |i: int| MatrixIndex { x: (x + i) as u8, y: y as u8 },
    )
}

/// The positions of the box from `lo` to `hi` in the rows from `y` on, row by row, each
/// from left to right.
pub open spec fn rows_from(lo: MatrixIndex, hi: MatrixIndex, y: int) -> Seq<MatrixIndex>
    decreases hi.y + 1 - y,
{
    if y > hi.y || y < 0 {
        Seq::empty()
    } else {
        row_from(lo.x as int, y, hi.x as int) + rows_from(lo, hi, y + 1)
    }
}

/// The positions that a walk hands out from the state `s` on, in order.
pub open spec fn walk_positions(s: (u8, MatrixIndex, MatrixIndex)) -> Seq<MatrixIndex>
    decreases 256 - walk_pos(s).y, 256 - walk_pos(s).x,
    when s.2.x < 255 && s.2.y < 255 && s.1.x <= s.2.x + 1 && s.0 <= s.2.x + 1
{
    match walk_step(s) {
        (Some(m), t) => seq![m] + walk_positions(t),
        (None, _) => Seq::empty(),
    }
}

/// The rest of a walk is the rest of its row, then the rows after it.
proof fn lemma_walk_rest(s: (u8, MatrixIndex, MatrixIndex))
    requires
        s.2.x < 255,
        s.2.y < 255,
        s.0 <= s.2.x,
        s.0 <= s.1.x <= s.2.x + 1,
        s.1.y <= s.2.y,
    ensures
        walk_positions(s) == row_from(s.1.x as int, s.1.y as int, s.2.x as int) + rows_from(
            MatrixIndex { x: s.0, y: 0 },
            s.2,
            s.1.y + 1,
        ),
    decreases 256 - walk_pos(s).y, 256 - walk_pos(s).x, if s.1.x > s.2.x {
        1int
    } else {
        0int
    },
{
    let m = walk_pos(s);
    let lo = MatrixIndex { x: s.0, y: 0 };
    if s.1.x > s.2.x {
        assert(row_from(s.1.x as int, s.1.y as int, s.2.x as int) =~= Seq::<MatrixIndex>::empty());
        if m.y <= s.2.y {
            let s2 = (s.0, m, s.2);
            lemma_walk_rest(s2);
            assert(walk_positions(s) == walk_positions(s2));
            assert(rows_from(lo, s.2, s.1.y + 1) == row_from(s.0 as int, m.y as int, s.2.x as int) + rows_from(
                lo,
                s.2,
                m.y + 1,
            ));
            assert(row_from(s.1.x as int, s.1.y as int, s.2.x as int) + rows_from(lo, s.2, s.1.y + 1)
                =~= rows_from(lo, s.2, s.1.y + 1));
        } else {
            assert(rows_from(lo, s.2, s.1.y + 1) =~= Seq::<MatrixIndex>::empty());
            assert(walk_positions(s) =~= Seq::<MatrixIndex>::empty());
        }
    } else {
        let t = walk_step(s).1;
        lemma_walk_rest(t);
        let r = row_from(s.1.x as int, s.1.y as int, s.2.x as int);
        let r2 = row_from(s.1.x + 1, s.1.y as int, s.2.x as int);
        assert(r =~= seq![m] + r2);
        assert(walk_positions(s) == seq![m] + walk_positions(t));
        assert(walk_positions(s) =~= r + rows_from(lo, s.2, s.1.y + 1));
    }
}

/// The walk over a box with both corners below the last row and column hands out exactly
/// the positions of the box, row by row, each row from left to right.
pub proof fn lemma_walk_covers_box(lo: MatrixIndex, hi: MatrixIndex)
    requires
        lo.x <= hi.x < 255,
        lo.y <= hi.y < 255,
    ensures
        walk_positions((lo.x, lo, hi)) == rows_from(lo, hi, lo.y as int),
{
    lemma_walk_rest((lo.x, lo, hi));
    assert(rows_from(lo, hi, lo.y as int) == row_from(lo.x as int, lo.y as int, hi.x as int) + rows_from(
        lo,
        hi,
        lo.y + 1,
    ));
    assert(rows_from(lo, hi, lo.y + 1) == rows_from(MatrixIndex { x: lo.x, y: 0 }, hi, lo.y + 1)) by {
        lemma_rows_from_ignores_lo_y(lo, MatrixIndex { x: lo.x, y: 0 }, hi, lo.y + 1);
    }
}

/// A position is among the rows from `y` on of the box from `lo` to `hi` exactly when it lies
/// in the box at row `y` or after.
pub proof fn lemma_rows_from_contains(lo: MatrixIndex, hi: MatrixIndex, y: int, m: MatrixIndex)
    requires
        0 <= y,
    ensures
        rows_from(lo, hi, y).contains(m) <==> (lo.x <= m.x <= hi.x && y <= m.y <= hi.y),
    decreases hi.y + 1 - y,
{
    if y > hi.y {
    } else {
        lemma_rows_from_contains(lo, hi, y + 1, m);
        let r = row_from(lo.x as int, y, hi.x as int);
        let rest = rows_from(lo, hi, y + 1);
        assert(rows_from(lo, hi, y) == r + rest);
        if lo.x <= m.x <= hi.x && m.y == y {
            let i = m.x - lo.x;
            assert(r[i] == m);
            assert((r + rest)[i] == m);
        }
        if (r + rest).contains(m) {
            let i = choose|i: int| 0 <= i < (r + rest).len() && (r + rest)[i] == m;
            if i >= r.len() {
                assert(rest[i - r.len()] == m);
            }
        }
        if rest.contains(m) {
            let i = choose|i: int| 0 <= i < rest.len() && rest[i] == m;
            assert((r + rest)[r.len() + i] == m);
        }
    }
}

/// The rows from `y` on depend on the lower corner only through its column.
proof fn lemma_rows_from_ignores_lo_y(a: MatrixIndex, b: MatrixIndex, hi: MatrixIndex, y: int)
    requires
        a.x == b.x,
    ensures
        rows_from(a, hi, y) == rows_from(b, hi, y),
    decreases hi.y + 1 - y,
{
    if !(y > hi.y || y < 0) {
        lemma_rows_from_ignores_lo_y(a, b, hi, y + 1);
    }
}

impl<T> MatrixBounded<T> {
    /// The filled positions, in row-major order, each once: those whose values can be
    /// changed in place with `get_mut`.
    pub fn iter_mut(&self) -> (r: Vec<MatrixIndex>)
        requires
            self.wf(),
        ensures
            forall|i: int| 0 <= i < r@.len() ==> filled(self.matrix@, (#[trigger] r@[i]).flat()),
            forall|i: int, j: int| 0 <= i < j < r@.len() ==> (#[trigger] r@[i]).flat() < (#[trigger] r@[j]).flat(),
            forall|k: int| #[trigger] filled(self.matrix@, k) ==> exists|i: int| 0 <= i < r@.len() && (#[trigger] r@[i]).flat() == k,
            r@.len() == self.len,
    {
        self.iter_opt_mut()
    }

    /// The filled positions, in row-major order, at which entries can be changed with
    /// `get_mut`.
    pub fn iter_opt_mut(&self) -> (r: Vec<MatrixIndex>)
        requires
            self.wf(),
        ensures
            forall|i: int| 0 <= i < r@.len() ==> filled(self.matrix@, (#[trigger] r@[i]).flat()),
            forall|i: int, j: int| 0 <= i < j < r@.len() ==> (#[trigger] r@[i]).flat() < (#[trigger] r@[j]).flat(),
            forall|k: int| #[trigger] filled(self.matrix@, k) ==> exists|i: int| 0 <= i < r@.len() && (#[trigger] r@[i]).flat() == k,
            r@.len() == self.len,
    {
        let all = self.iter_opt();
        let mut out: Vec<MatrixIndex> = Vec::new();
        let mut i: usize = 0;
        while i < all.len()
            invariant
                i <= all@.len(),
                out@.len() == i,
                forall|j: int| 0 <= j < i ==> (#[trigger] out@[j]) == all@[j].0,
            decreases all@.len() - i,
        {
            out.push(all[i].0);
            i = i + 1;
        }
        proof {
            assert forall|a: int| 0 <= a < out@.len() implies filled(self.matrix@, (#[trigger] out@[a]).flat()) by {
                assert(out@[a] == all@[a].0);
            }
            assert forall|a: int, b: int| 0 <= a < b < out@.len() implies (#[trigger] out@[a]).flat()
                < (#[trigger] out@[b]).flat() by {
                assert(out@[a] == all@[a].0 && out@[b] == all@[b].0);
            }
            assert forall|k: int| #[trigger] filled(self.matrix@, k) implies exists|j: int|
                0 <= j < out@.len() && (#[trigger] out@[j]).flat() == k by {
                let j = choose|j: int| 0 <= j < all@.len() && (#[trigger] all@[j]).0.flat() == k;
                assert(out@[j] == all@[j].0);
            }
        }
        out
    }
}

impl<T: Default> Default for Matrix<T> {
    /// A grid of default values.
    fn default() -> (m: Self)
        ensures
            m.wf(),
    {
        let mut elems: Vec<T> = Vec::new();
        let mut i: usize = 0;
        while i < 65536
            invariant
                i <= 65536,
                elems@.len() == i,
            decreases 65536 - i,
        {
            elems.push(T::default());
            i = i + 1;
        }
        Matrix { elems }
    }
}

impl<T> MatrixBounded<T> {
    /// Mutable access to the entry at `index`. The counters and the box stay as they were,
    /// so the map is well formed again afterwards exactly when the entry is filled or empty
    /// as it was before.
    pub fn index_mut(&mut self, index: MatrixIndex) -> (r: &mut Option<T>)
        requires
            old(self).wf(),
        ensures
            *r == old(self).at(index),
            final(self).matrix@ == old(self).matrix@.update(index.flat(), *final(r)),
            final(self).len == old(self).len,
            final(self).min_elem == old(self).min_elem,
            final(self).max_elem == old(self).max_elem,
    {
        self.matrix.index_mut(index)
    }
}

} // verus!
