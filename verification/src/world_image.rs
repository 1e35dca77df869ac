use crate::cell::{kind_color, Cell, CellColor};
use crate::chunk_map::{cell_of, lemma_cell_valid, ChunkMap, FullIndex};
use vstd::prelude::*;

verus! {

/// The size of one cell on screen, in screen pixels.
pub struct PixelLength(pub u32);

/// The size, in cells, of the image through which the world is shown.
pub struct WorldImage {
    pub width: u16,
    pub height: u16,
}

impl Default for WorldImage {
    fn default() -> (r: Self)
        ensures
            r.width == 0,
            r.height == 0,
    {
        WorldImage { width: 0, height: 0 }
    }
}

/// `a / b` rounded up.
pub open spec fn div_up(a: int, b: int) -> int {
    a / b + if a % b != 0 {
        1int
    } else {
        0int
    }
}

/// The cells along one side of the image for a window side of `len` screen pixels: enough
/// cells to cover it, two more, rounded up to an even number.
pub open spec fn image_side(len: int, pixel_length: int) -> int {
    let n = div_up(len, pixel_length) + 2;
    if n % 2 == 0 {
        n
    } else {
        n + 1
    }
}

fn side(len: u32, pixel_length: u32) -> (r: u16)
    requires
        pixel_length > 0,
        image_side(len as int, pixel_length as int) <= 0xffff,
    ensures
        r == image_side(len as int, pixel_length as int),
{
    let cells = len / pixel_length + if len % pixel_length != 0 {
        1u32
    } else {
        0u32
    };
    let n = cells + 2;
    let even = if n % 2 == 0 {
        n
    } else {
        n + 1
    };
    even as u16
}

impl WorldImage {
    /// Sizes the image for a window of `width` by `height` screen pixels, with cells of
    /// `pixel_length` screen pixels.
    pub fn resize(&mut self, width: u32, height: u32, pixel_length: u32)
        requires
            pixel_length > 0,
            image_side(width as int, pixel_length as int) <= 0xffff,
            image_side(height as int, pixel_length as int) <= 0xffff,
        ensures
            final(self).width == image_side(width as int, pixel_length as int),
            final(self).height == image_side(height as int, pixel_length as int),
    {
        self.width = side(width, pixel_length);
        self.height = side(height, pixel_length);
    }
}

/// The four bytes (red, green, blue, alpha) shown for the world position `(x, y)`: the color
/// of the cell there, or that of air where no chunk is loaded.
pub open spec fn pixel_at(v: Seq<Option<(Seq<Cell>, bool)>>, x: int, y: int) -> Seq<u8> {
    let c = match cell_of(v, FullIndex::of_world(x, y)) {
        Some(cell) => kind_color(cell.id),
        None => CellColor::air_color(),
    };
    seq![c.r, c.g, c.b, c.a]
}

/// Fills `data`, four bytes per cell, with the colors of the `width` by `height` cells
/// around `(px, py)`: rows from the top one down, each from left to right, for as many
/// cells as `data` holds; the rest of `data` is left as it is.
pub fn write_data(world: &ChunkMap, data: &mut Vec<u8>, px: u16, py: u16, width: u16, height: u16)
    requires
        world.wf(),
        width / 2 <= px,
        px + (width - width / 2) <= 0xffff,
        height / 2 <= py,
        py + (height - height / 2) <= 0xffff,
    ensures
        final(data)@.len() == old(data)@.len(),
        ({
            let w = width as int;
            let n: int = if old(data)@.len() / 4 <= w * height {
                (old(data)@.len() / 4) as int
            } else {
                w * height
            };
            let sx = px - width / 2;
            let ey = py + (height - height / 2);
            &&& forall|j: int, c: int|
                0 <= j < n && 0 <= c < 4 ==> #[trigger] final(data)@[4 * j + c] == pixel_at(
                    world@,
                    sx + j % w,
                    ey - 1 - j / w,
                )[c]
            &&& forall|b: int| 4 * n <= b < old(data)@.len() ==> #[trigger] final(data)@[b] == old(data)@[b]
        }),
{
    let w = width as usize;
    let h = height as usize;
    let sx = px - width / 2;
    let ey = py + (height - height / 2);
    assert(w * h <= 0xfffe0001) by (nonlinear_arith)
        requires
            w <= 0xffff,
            h <= 0xffff,
    ;
    let area = w * h;
    let n = if data.len() / 4 <= area {
        data.len() / 4
    } else {
        area
    };
    let ghost old_data = data@;
    let len = data.len();
    let mut j: usize = 0;
    while j < n
        invariant
            world.wf(),
            data@.len() == old_data.len(),
            len == old_data.len(),
            n <= old_data.len() / 4,
            n <= w * h,
            w == width,
            h == height,
            sx == px - width / 2,
            ey == py + (height - height / 2),
            py + (height - height / 2) <= 0xffff,
            height / 2 <= py,
            width / 2 <= px,
            px + (width - width / 2) <= 0xffff,
            j <= n,
            forall|jj: int, c: int|
                0 <= jj < j && 0 <= c < 4 ==> #[trigger] data@[4 * jj + c] == pixel_at(
                    world@,
                    sx + jj % (w as int),
                    ey - 1 - jj / (w as int),
                )[c],
            forall|b: int| 4 * j <= b < old_data.len() ==> #[trigger] data@[b] == old_data[b],
        decreases n - j,
    {
        assert(w > 0) by (nonlinear_arith)
            requires
                j < w * h,
        ;
        assert(j / w < h) by (nonlinear_arith)
            requires
                j < w * h,
                w > 0,
        ;
        let col = j % w;
        let row = j / w;
        let x = sx + col as u16;
        let y = ey - 1 - row as u16;
        let index = FullIndex::from((x, y));
        let color = match world.get(index) {
            Some(cell) => {
                proof {
                    lemma_cell_valid(*world, index);
                }
                cell.color()
            },
            None => CellColor::air(),
        };
        let ghost before = data@;
        assert(4 * j + 3 < data@.len());
        data[4 * j] = color.r;
        data[4 * j + 1] = color.g;
        data[4 * j + 2] = color.b;
        data[4 * j + 3] = color.a;
        proof {
            assert forall|jj: int, c: int| 0 <= jj < j + 1 && 0 <= c < 4 implies #[trigger] data@[4 * jj + c]
                == pixel_at(world@, sx + jj % (w as int), ey - 1 - jj / (w as int))[c] by {
                if jj < j {
                    assert(data@[4 * jj + c] == before[4 * jj + c]);
                }
            }
        }
        j = j + 1;
    }
}

} // verus!
