use crate::array::Array;
use crate::cell::{Cell, CellId, CELL_COUNT};
use crate::chunk::Chunk;
use crate::CHUNK_AREA;
use vstd::prelude::*;

verus! {

/// `n` copies of the pixel `p`.
pub open spec fn repeat(p: u16, n: nat) -> Seq<u16> {
    Seq::new(n, |_i: int| p)
}

/// The pixels that a list of runs stands for: each run `[n, p]` is the pixel `p` repeated
/// `n + 1` times, and the runs follow each other in order.
pub open spec fn decode(runs: Seq<[u16; 2]>) -> Seq<u16>
    decreases runs.len(),
{
    if runs.len() == 0 {
        Seq::empty()
    } else {
        decode(runs.drop_last()) + repeat(runs.last()[1], runs.last()[0] as nat + 1)
    }
}

/// Appending a run appends its pixels.
pub proof fn lemma_decode_push(runs: Seq<[u16; 2]>, r: [u16; 2])
    ensures
        decode(runs.push(r)) == decode(runs) + repeat(r[1], r[0] as nat + 1),
{
    assert(runs.push(r).drop_last() =~= runs);
}

/// The pixels of a list of runs start with those of its first run.
pub proof fn lemma_decode_first(runs: Seq<[u16; 2]>)
    requires
        runs.len() > 0,
    ensures
        decode(runs) == repeat(runs[0][1], runs[0][0] as nat + 1) + decode(runs.drop_first()),
    decreases runs.len(),
{
    if runs.len() == 1 {
        assert(runs.drop_first() =~= Seq::<[u16; 2]>::empty());
        assert(runs.drop_last() =~= Seq::<[u16; 2]>::empty());
        assert(decode(runs) =~= repeat(runs[0][1], runs[0][0] as nat + 1) + decode(runs.drop_first()));
    } else {
        let init = runs.drop_last();
        lemma_decode_first(init);
        assert(init.drop_first() =~= runs.drop_first().drop_last());
        assert(init[0] == runs[0]);
        assert(runs.drop_first().last() == runs.last());
        assert(decode(runs) =~= repeat(runs[0][1], runs[0][0] as nat + 1) + decode(runs.drop_first()));
    }
}

/// Every run stands for at least one pixel.
pub proof fn lemma_decode_len(runs: Seq<[u16; 2]>)
    ensures
        decode(runs).len() >= runs.len(),
    decreases runs.len(),
{
    if runs.len() > 0 {
        lemma_decode_len(runs.drop_last());
    }
}

/// A list of runs, borrowed.
pub struct PixelRun<'a> {
    pub arr: &'a [[u16; 2]],
}

impl<'a> PixelRun<'a> {
    /// The pixels that the runs stand for, one at a time; there must be at least one run.
    #[must_use]
    pub fn iter(self) -> (it: PixelRunIter<'a>)
        requires
            self.arr@.len() > 0,
        ensures
            it.remaining() == decode(self.arr@),
    {
        proof {
            lemma_decode_first(self.arr@);
        }
        let (_, rest) = self.arr.split_at(1);
        PixelRunIter { arr: rest, current: self.arr[0][0], pixel: self.arr[0][1], next: false }
    }
}

/// Hands out the pixels of a list of runs in order.
pub struct PixelRunIter<'a> {
    arr: &'a [[u16; 2]],
    current: u16,
    pixel: CellId,
    next: bool,
}

impl<'a> PixelRunIter<'a> {
    /// The pixels still to come.
    pub closed spec fn remaining(&self) -> Seq<u16> {
        if self.next {
            decode(self.arr@)
        } else {
            repeat(self.pixel, self.current as nat + 1) + decode(self.arr@)
        }
    }

    /// The next pixel, or `None` once all have been handed out.
    pub fn next(&mut self) -> (r: Option<CellId>)
        ensures
            match r {
                Some(p) => old(self).remaining().len() > 0 && p == old(self).remaining()[0]
                    && final(self).remaining() == old(self).remaining().drop_first(),
                None => old(self).remaining().len() == 0 && final(self).remaining() == old(
                    self,
                ).remaining(),
            },
    {
        let ghost before = self.remaining();
        if self.next {
            if self.arr.len() == 0 {
                proof {
                    assert(self.arr@ =~= Seq::<[u16; 2]>::empty());
                }
                return None;
            }
            proof {
                lemma_decode_first(self.arr@);
            }
            self.current = self.arr[0][0];
            self.pixel = self.arr[0][1];
            let (_, rest) = self.arr.split_at(1);
            self.arr = rest;
            self.next = false;
            proof {
                assert(self.arr@ =~= old(self).arr@.drop_first());
                assert(self.remaining() == before);
            }
        }
        let ghost mid = self.remaining();
        if self.current == 0 {
            self.next = true;
            proof {
                assert(self.remaining() =~= mid.drop_first());
            }
        } else {
            self.current = self.current - 1;
            proof {
                assert(self.remaining() =~= mid.drop_first());
            }
        }
        Some(self.pixel)
    }
}

/// Runs that own their storage.
pub struct PixelRunOwned {
    pub arr: Array<[u16; 2], CHUNK_AREA>,
}

impl PixelRunOwned {
    /// The runs held.
    pub open spec fn runs(&self) -> Seq<[u16; 2]> {
        self.arr.view()
    }

    /// The runs, borrowed; the storage must not be full.
    #[must_use]
    pub fn slice(&self) -> (r: PixelRun<'_>)
        requires
            self.runs().len() < CHUNK_AREA,
        ensures
            r.arr@ == self.runs(),
    {
        PixelRun { arr: self.arr.slice() }
    }
}

impl Default for PixelRunOwned {
    fn default() -> (r: Self)
        ensures
            r.runs() == Seq::<[u16; 2]>::empty(),
    {
        PixelRunOwned { arr: Array::new() }
    }
}

/// The number of places in `s` where a pixel differs from the one before it.
pub open spec fn changes(s: Seq<u16>) -> nat
    decreases s.len(),
{
    if s.len() <= 1 {
        0
    } else {
        changes(s.drop_last()) + if s.last() != s[s.len() - 2] {
            1nat
        } else {
            0nat
        }
    }
}

/// A prefix never has more changes than the whole, and `s` has fewer changes than pixels.
pub proof fn lemma_changes_prefix(s: Seq<u16>, i: int)
    requires
        0 <= i <= s.len(),
    ensures
        changes(s.subrange(0, i)) <= changes(s),
        s.len() >= 1 ==> changes(s) < s.len(),
    decreases s.len(),
{
    if s.len() > 1 {
        lemma_changes_prefix(s.drop_last(), if i == s.len() { 0 } else { i });
        if i < s.len() {
            assert(s.drop_last().subrange(0, i) =~= s.subrange(0, i));
        } else {
            assert(s.subrange(0, i) =~= s);
        }
    } else if i == s.len() {
        assert(s.subrange(0, i) =~= s);
    } else {
        assert(s.subrange(0, i).len() <= 1);
    }
}

/// The pixels `s[0..=i]` are all equal to `s[0]`.
pub open spec fn same_prefix(s: Seq<u16>, i: int) -> bool {
    forall|j: int| 0 <= j <= i ==> #[trigger] s[j] == s[0]
}

/// An open run of `len + 1` copies of `s[0]`, grown by the pixels of `s` equal to `s[0]` that
/// lead it, stays below the largest run length.
pub open spec fn first_run_fits(s: Seq<u16>, len: u16) -> bool {
    forall|i: int| 0 <= i < s.len() && same_prefix(s, i) ==> len + i <= 65535
}

/// The kinds of the cells, in order.
pub open spec fn cell_ids(cells: Seq<Cell>) -> Seq<u16> {
    cells.map_values(|c: Cell| c.id)
}

/// Builds runs of pixels: the finished runs, then an open run of `len + 1` copies of
/// `current`.
pub struct PixelRunBuilder {
    pub inner: PixelRunOwned,
    pub current: CellId,
    pub len: u16,
}

impl Default for PixelRunBuilder {
    fn default() -> (r: Self)
        ensures
            r.runs() == Seq::<[u16; 2]>::empty(),
            r.current == 0,
            r.len == 0,
    {
        PixelRunBuilder { inner: PixelRunOwned::default(), current: 0, len: 0 }
    }
}

impl PixelRunBuilder {
    /// The finished runs.
    pub open spec fn runs(&self) -> Seq<[u16; 2]> {
        self.inner.runs()
    }

    /// The pixels of the finished runs followed by those of the open run.
    pub open spec fn pixels(&self) -> Seq<u16> {
        decode(self.runs()) + repeat(self.current, self.len as nat + 1)
    }

    /// Closes the open run and appends it to the finished runs; the new open run holds one
    /// copy of the same pixel.
    pub fn finish(&mut self)
        requires
            old(self).runs().len() < CHUNK_AREA,
        ensures
            final(self).runs() == old(self).runs().push([old(self).len, old(self).current]),
            final(self).current == old(self).current,
            final(self).len == 0,
    {
        self.inner.arr.push([self.len, self.current]);
        self.len = 0;
    }

    /// Appends one pixel: it lengthens the open run when it equals its pixel, and otherwise
    /// closes it and opens a run of the new pixel.
    pub fn push(&mut self, pixel: CellId)
        requires
            old(self).current == pixel ==> old(self).len < 65535,
            old(self).current != pixel ==> old(self).runs().len() < CHUNK_AREA,
        ensures
            final(self).pixels() == old(self).pixels().push(pixel),
            final(self).current == pixel,
            old(self).current == pixel ==> final(self).runs() == old(self).runs() && final(self).len
                == old(self).len + 1,
            old(self).current != pixel ==> final(self).runs() == old(self).runs().push(
                [old(self).len, old(self).current],
            ) && final(self).len == 0,
    {
        if self.current == pixel {
            self.len = self.len + 1;
            proof {
                assert(self.pixels() =~= old(self).pixels().push(pixel));
            }
        } else {
            self.finish();
            self.current = pixel;
            self.len = 0;
            proof {
                lemma_decode_push(old(self).runs(), [old(self).len, old(self).current]);
                assert(self.pixels() =~= old(self).pixels().push(pixel));
            }
        }
    }

    /// Drops all finished runs and empties the open run's count.
    pub fn clear(&mut self)
        ensures
            final(self).runs() == Seq::<[u16; 2]>::empty(),
            final(self).current == old(self).current,
            final(self).len == 0,
    {
        self.len = 0;
        self.inner.arr.clear();
    }

    /// The finished runs, borrowed; the storage must not be full.
    #[must_use]
    pub fn pixel_run(&self) -> (r: PixelRun<'_>)
        requires
            self.runs().len() < CHUNK_AREA,
        ensures
            r.arr@ == self.runs(),
    {
        PixelRun { arr: self.inner.arr.slice() }
    }

    /// Closes the open run and hands out all runs, borrowed.
    #[must_use]
    pub fn build(&mut self) -> (r: PixelRun<'_>)
        requires
            old(self).runs().len() + 1 < CHUNK_AREA,
        ensures
            final(self).runs() == old(self).runs().push([old(self).len, old(self).current]),
            final(self).current == old(self).current,
            final(self).len == 0,
            r.arr@ == final(self).runs(),
    {
        self.finish();
        self.pixel_run()
    }

    /// Closes the open run and hands out all runs.
    #[must_use]
    pub fn build_owned(self) -> (r: PixelRunOwned)
        requires
            self.runs().len() < CHUNK_AREA,
        ensures
            r.runs() == self.runs().push([self.len, self.current]),
    {
        let mut b = self;
        b.finish();
        b.inner
    }

    /// Appends the kinds of the cells of `chunk`, row by row. The first cell's kind replaces
    /// the open run's pixel and continues its count; each later cell is pushed.
    pub fn write_chunk(&mut self, chunk: &Chunk)
        requires
            chunk.wf(),
            old(self).runs().len() + changes(cell_ids(chunk.cells@)) <= CHUNK_AREA,
            first_run_fits(cell_ids(chunk.cells@), old(self).len),
        ensures
            ({
                let ids = cell_ids(chunk.cells@);
                &&& final(self).pixels() == decode(old(self).runs()) + repeat(ids[0], old(self).len as nat)
                    + ids
                &&& final(self).runs().len() == old(self).runs().len() + changes(ids)
                &&& final(self).runs().subrange(0, old(self).runs().len() as int) == old(self).runs()
                &&& final(self).current == ids.last()
            }),
    {
        let ghost ids = cell_ids(chunk.cells@);
        let ghost r0 = old(self).runs();
        let ghost l0 = old(self).len;
        let cells = chunk.cells.iter();
        self.current = cells[0].id;
        proof {
            assert(ids.subrange(0, 1) =~= seq![ids[0]]);
            assert(self.pixels() =~= decode(r0) + repeat(ids[0], l0 as nat) + ids.subrange(0, 1));
            assert(r0.subrange(0, r0.len() as int) =~= r0);
        }
        let mut i: usize = 1;
        while i < cells.len()
            invariant
                cells@ == chunk.cells@,
                cells@.len() == 65536,
                ids == cell_ids(chunk.cells@),
                1 <= i <= 65536,
                r0.len() + changes(ids) <= CHUNK_AREA,
                first_run_fits(ids, l0),
                self.pixels() == decode(r0) + repeat(ids[0], l0 as nat) + ids.subrange(0, i as int),
                self.current == ids[i - 1],
                self.runs().len() == r0.len() + changes(ids.subrange(0, i as int)),
                self.runs().subrange(0, r0.len() as int) == r0,
                same_prefix(ids, i - 1) ==> self.len == l0 + i - 1,
                !same_prefix(ids, i - 1) ==> self.len + 1 < i,
            decreases 65536 - i,
        {
            let ghost before = self.runs();
            proof {
                let s = ids.subrange(0, i + 1);
                assert(s.drop_last() =~= ids.subrange(0, i as int));
                assert(s.last() == ids[i as int]);
                assert(s[s.len() - 2] == ids[i - 1]);
                lemma_changes_prefix(ids, i + 1);
                if same_prefix(ids, i - 1) && ids[i as int] == ids[i - 1] {
                    assert(same_prefix(ids, i as int));
                }
            }
            self.push(cells[i].id);
            proof {
                assert(ids.subrange(0, i + 1) =~= ids.subrange(0, i as int).push(ids[i as int]));
                assert(self.runs().subrange(0, r0.len() as int) =~= before.subrange(0, r0.len() as int));
                if ids[i as int] == ids[i - 1] {
                    if same_prefix(ids, i - 1) {
                        assert(same_prefix(ids, i as int));
                    } else {
                        assert(!same_prefix(ids, i as int));
                    }
                } else {
                    assert(!same_prefix(ids, i as int));
                }
            }
            i = i + 1;
        }
        proof {
            assert(ids.subrange(0, 65536) =~= ids);
        }
    }
}

impl Chunk {
    /// The runs of the kinds of this chunk's cells, row by row: they stand for exactly the
    /// cells' kinds, one run per stretch of equal kinds.
    #[must_use]
    pub fn get_pixel_run(&self) -> (r: PixelRunOwned)
        requires
            self.wf(),
        ensures
            decode(r.runs()) == cell_ids(self.cells@),
            r.runs().len() == changes(cell_ids(self.cells@)) + 1,
    {
        let ghost ids = cell_ids(self.cells@);
        let mut pixel_run = PixelRunBuilder::default();
        proof {
            lemma_changes_prefix(ids, 0);
        }
        pixel_run.write_chunk(self);
        let ghost b = pixel_run;
        let r = pixel_run.build_owned();
        proof {
            lemma_decode_push(b.runs(), [b.len, b.current]);
            assert(decode(r.runs()) =~= b.pixels());
            assert(repeat(ids[0], 0) + ids =~= ids);
        }
        r
    }
}

/// The byte form of runs: each run `[n, p]` as four bytes, `n` and then `p`, each low byte
/// first.
pub open spec fn run_bytes(runs: Seq<[u16; 2]>) -> Seq<u8>
    decreases runs.len(),
{
    if runs.len() == 0 {
        Seq::empty()
    } else {
        let r = runs.last();
        run_bytes(runs.drop_last()) + four_bytes(r)
    }
}

/// The number made of a low and a high byte.
pub open spec fn le16(lo: u8, hi: u8) -> u16 {
    (lo + 256 * hi) as u16
}

/// The runs that bytes stand for: each whole group of four bytes is a run; bytes left over
/// at the end are ignored.
pub open spec fn bytes_runs(bytes: Seq<u8>) -> Seq<[u16; 2]> {
    Seq::new(
        bytes.len() / 4,
        |i: int| [le16(bytes[4 * i], bytes[4 * i + 1]), le16(bytes[4 * i + 2], bytes[4 * i + 3])],
    )
}

/// The four bytes of the run `r`.
pub open spec fn four_bytes(r: [u16; 2]) -> Seq<u8> {
    seq![(r[0] % 256) as u8, (r[0] / 256) as u8, (r[1] % 256) as u8, (r[1] / 256) as u8]
}

/// Four bytes per run, and the bytes of run `i` are at `4 * i`.
pub proof fn lemma_run_bytes(runs: Seq<[u16; 2]>)
    ensures
        run_bytes(runs).len() == 4 * runs.len(),
        forall|i: int, j: int|
            0 <= i < runs.len() && 0 <= j < 4 ==> run_bytes(runs)[4 * i + j] == #[trigger] four_bytes(
                runs[i],
            )[j],
    decreases runs.len(),
{
    if runs.len() > 0 {
        let init = runs.drop_last();
        lemma_run_bytes(init);
        let b = run_bytes(runs);
        assert(b == run_bytes(init) + four_bytes(runs.last()));
        assert forall|i: int, j: int| 0 <= i < runs.len() && 0 <= j < 4 implies b[4 * i + j]
            == #[trigger] four_bytes(runs[i])[j] by {
            if i < runs.len() - 1 {
                assert(init[i] == runs[i]);
                assert(run_bytes(init)[4 * i + j] == four_bytes(init[i])[j]);
            }
        }
    }
}

/// Reading back the bytes of runs gives the runs.
pub proof fn lemma_bytes_roundtrip(runs: Seq<[u16; 2]>)
    ensures
        bytes_runs(run_bytes(runs)) == runs,
{
    lemma_run_bytes(runs);
    let b = run_bytes(runs);
    assert(b.len() / 4 == runs.len());
    assert forall|i: int| 0 <= i < runs.len() implies #[trigger] bytes_runs(b)[i] == runs[i] by {
        let n = runs[i][0];
        let p = runs[i][1];
        let f = four_bytes(runs[i]);
        assert(b[4 * i] == f[0]);
        assert(b[4 * i + 1] == f[1]);
        assert(b[4 * i + 2] == f[2]);
        assert(b[4 * i + 3] == f[3]);
        assert(le16((n % 256) as u8, (n / 256) as u8) == n);
        assert(le16((p % 256) as u8, (p / 256) as u8) == p);
        assert(bytes_runs(b)[i] =~= runs[i]);
    }
    assert(bytes_runs(b) =~= runs);
}

impl PixelRunBuilder {
    /// The finished runs as bytes, as they are stored in a chunk's file.
    #[must_use]
    pub fn write_bytes(&self) -> (r: Vec<u8>)
        requires
            self.runs().len() < CHUNK_AREA,
        ensures
            r@ == run_bytes(self.runs()),
    {
        let mut out: Vec<u8> = Vec::new();
        let runs = self.pixel_run().arr;
        let n = runs.len();
        let mut i: usize = 0;
        while i < n
            invariant
                n == self.runs().len(),
                runs@ == self.runs(),
                i <= n,
                out@ == run_bytes(self.runs().subrange(0, i as int)),
            decreases n - i,
        {
            proof {
                assert(self.runs().subrange(0, i + 1).drop_last() =~= self.runs().subrange(0, i as int));
            }
            let r = runs[i];
            out.push((r[0] % 256) as u8);
            out.push((r[0] / 256) as u8);
            out.push((r[1] % 256) as u8);
            out.push((r[1] / 256) as u8);
            proof {
                assert(out@ =~= run_bytes(self.runs().subrange(0, i + 1)));
            }
            i = i + 1;
        }
        proof {
            assert(self.runs().subrange(0, n as int) =~= self.runs());
        }
        out
    }

    /// Replaces the finished runs by those that `bytes` (a chunk's file, at most as large as
    /// the storage) stands for; the open run is kept.
    pub fn read_bytes(&mut self, bytes: &[u8])
        requires
            bytes@.len() <= 4 * CHUNK_AREA,
        ensures
            final(self).runs() == bytes_runs(bytes@),
            final(self).current == old(self).current,
            final(self).len == old(self).len,
    {
        self.inner.arr.clear();
        let n = bytes.len() / 4;
        let mut i: usize = 0;
        while i < n
            invariant
                n == bytes@.len() / 4,
                n <= CHUNK_AREA,
                i <= n,
                self.runs() == bytes_runs(bytes@).subrange(0, i as int),
                self.current == old(self).current,
                self.len == old(self).len,
            decreases n - i,
        {
            let b = 4 * i;
            let run = [
                bytes[b] as u16 + 256 * (bytes[b + 1] as u16),
                bytes[b + 2] as u16 + 256 * (bytes[b + 3] as u16),
            ];
            proof {
                assert(run[0] == le16(bytes@[4 * i], bytes@[4 * i + 1]));
                assert(run[1] == le16(bytes@[4 * i + 2], bytes@[4 * i + 3]));
                assert(run =~= bytes_runs(bytes@)[i as int]);
            }
            self.inner.arr.push(run);
            proof {
                assert(self.runs() =~= bytes_runs(bytes@).subrange(0, i + 1));
            }
            i = i + 1;
        }
        proof {
            assert(bytes_runs(bytes@).subrange(0, n as int) =~= bytes_runs(bytes@));
        }
    }
}

/// A chunk written into a fresh builder reads back: once the open run is finished, the runs
/// stand for the chunk's 65536 cell ids in row-major order, which is what iterating them
/// (`PixelRun::iter`, then `next`) hands out.
pub proof fn lemma_written_chunk_iterates_back(c: Chunk, b: PixelRunBuilder)
    requires
        c.wf(),
        b.pixels() == decode(Seq::<[u16; 2]>::empty()) + repeat(cell_ids(c.cells@)[0], 0) + cell_ids(c.cells@),
    ensures
        decode(b.runs().push([b.len, b.current])) == cell_ids(c.cells@),
        decode(b.runs().push([b.len, b.current])).len() == CHUNK_AREA,
{
    lemma_decode_push(b.runs(), [b.len, b.current]);
    assert(decode(Seq::<[u16; 2]>::empty()) + repeat(cell_ids(c.cells@)[0], 0) + cell_ids(c.cells@) =~= cell_ids(
        c.cells@,
    ));
}

/// A chunk saved as runs reads back as the same kinds of cells: runs that stand for a
/// chunk's cells hold at least a chunk's worth of pixels, the first of which are the cells'
/// kinds, all of them known kinds (so `chunk_ids_from_runs` gives them back).
pub proof fn lemma_saved_chunk_reads_back(c: Chunk, runs: Seq<[u16; 2]>)
    requires
        c.wf(),
        decode(runs) == cell_ids(c.cells@),
    ensures
        decode(runs).len() >= CHUNK_AREA,
        decode(runs).subrange(0, CHUNK_AREA as int) == cell_ids(c.cells@),
        forall|k: int| 0 <= k < CHUNK_AREA ==> #[trigger] decode(runs)[k] < CELL_COUNT,
{
    let ids = cell_ids(c.cells@);
    assert(ids.subrange(0, CHUNK_AREA as int) =~= ids);
    assert forall|k: int| 0 <= k < CHUNK_AREA implies #[trigger] decode(runs)[k] < CELL_COUNT by {
        assert(c.cells@[k].valid());
    }
}

/// The cell kinds of a chunk read back from runs: the first `CHUNK_AREA` pixels the runs
/// stand for, when there are that many and each names a kind of cell; otherwise `None`.
pub fn chunk_ids_from_runs(run: PixelRun) -> (r: Option<Vec<CellId>>)
    requires
        run.arr@.len() > 0,
    ensures
        match r {
            Some(v) => decode(run.arr@).len() >= CHUNK_AREA && v@ == decode(run.arr@).subrange(
                0,
                CHUNK_AREA as int,
            ) && forall|k: int| 0 <= k < CHUNK_AREA ==> #[trigger] v@[k] < CELL_COUNT,
            None => decode(run.arr@).len() < CHUNK_AREA || exists|k: int|
                0 <= k < CHUNK_AREA && #[trigger] decode(run.arr@)[k] >= CELL_COUNT,
        },
{
    let ghost all = decode(run.arr@);
    let mut it = run.iter();
    let mut ids: Vec<CellId> = Vec::new();
    let mut k: usize = 0;
    while k < CHUNK_AREA
        invariant
            k <= CHUNK_AREA,
            all == decode(run.arr@),
            ids@.len() == k,
            all.len() >= k ==> it.remaining() == all.subrange(k as int, all.len() as int),
            all.len() >= k,
            ids@ == all.subrange(0, k as int),
            forall|j: int| 0 <= j < k ==> #[trigger] ids@[j] < CELL_COUNT,
        decreases CHUNK_AREA - k,
    {
        match it.next() {
            Some(p) => {
                if p >= CELL_COUNT {
                    proof {
                        assert(decode(run.arr@)[k as int] == p);
                    }
                    return None;
                }
                ids.push(p);
                proof {
                    assert(all[k as int] == p);
                    assert(ids@ =~= all.subrange(0, k + 1));
                    assert(it.remaining() =~= all.subrange(k + 1, all.len() as int));
                }
            },
            None => {
                return None;
            },
        }
        k = k + 1;
    }
    Some(ids)
}

} // verus!
