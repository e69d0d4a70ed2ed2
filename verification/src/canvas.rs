//! The shared canvas: a grid of colour codes (the raw map), the RGB picture
//! that shows it, and the PNG rendering of that picture.
//!
//! The raw map stores the cell at column `x`, row `y` at index
//! `x * width + y`; the picture holds the pixel `(x, y)` in the palette
//! colour of the code written there.

use crate::image_io::{
    encode_png, grid, image_pixels, image_size, new_image, png_encoding, put_pixel,
    uniform_pixels, Colour, PixelBuffer,
};
use vstd::prelude::*;

verus! {

/// Why a canvas operation did not complete.
#[derive(Clone, Copy, Debug, PartialEq, Eq, Structural)]
pub enum CanvasError {
    /// The pixel or the rectangle does not lie inside the canvas; nothing
    /// was changed.
    OutOfBounds,
}

impl CanvasError {
    /// The text that the error is reported with.
    pub fn message(&self) -> (m: &'static str)
        ensures
            m@ == "Pixel out of bounds"@,
    {
        match self {
            CanvasError::OutOfBounds => "Pixel out of bounds",
        }
    }
}

/// Index in the raw map of the cell at column `x`, row `y`.
pub open spec fn cell(width: u32, x: int, y: int) -> int {
    x * width + y
}

/// The RGB colour that a colour code is drawn in (the sixteen wool colours;
/// every code but 1 to 15 is drawn in the background colour).
pub open spec fn palette(code: u8) -> Colour {
    match code {
        1u8 => (241u8, 118u8, 19u8),
        2u8 => (190u8, 69u8, 180u8),
        3u8 => (58u8, 175u8, 218u8),
        4u8 => (249u8, 198u8, 39u8),
        5u8 => (112u8, 185u8, 25u8),
        6u8 => (238u8, 141u8, 173u8),
        7u8 => (62u8, 68u8, 71u8),
        8u8 => (142u8, 142u8, 135u8),
        9u8 => (21u8, 138u8, 145u8),
        10u8 => (122u8, 42u8, 173u8),
        11u8 => (53u8, 57u8, 158u8),
        12u8 => (114u8, 71u8, 40u8),
        13u8 => (85u8, 109u8, 27u8),
        14u8 => (161u8, 39u8, 34u8),
        15u8 => (20u8, 21u8, 25u8),
        _ => (234u8, 237u8, 237u8),
    }
}

/// What a canvas is: its size, its raw map, its picture and the PNG bytes
/// it last rendered.
pub struct CanvasView {
    pub width: u32,
    pub height: u32,
    pub data: Seq<u8>,
    pub pixels: Map<(u32, u32), Colour>,
    pub png: Seq<u8>,
}

impl CanvasView {
    /// Whether `(x, y)` lies on the canvas.
    pub open spec fn holds(self, x: u32, y: u32) -> bool {
        x < self.width && y < self.height
    }

    /// Whether the raw map has room for the cell at `(x, y)`.
    pub open spec fn stores(self, x: int, y: int) -> bool {
        cell(self.width, x, y) < self.width * self.height
    }

    /// Whether the rectangle with corner `(x, y)` and the given size passes
    /// the bounds check of `fill_rect` (which keeps it off the last column
    /// and the last row).
    pub open spec fn rect_fits(self, x: u32, y: u32, width: u32, height: u32) -> bool {
        x + width < self.width && y + height < self.height
    }

    /// Whether the raw map has room for every cell of the rectangle.
    pub open spec fn rect_stored(self, x: u32, y: u32, width: u32, height: u32) -> bool {
        width > 0 && height > 0 ==> self.stores(x + width - 1, y + height - 1)
    }

    /// Whether a saved map of `n` bytes can be loaded: the cell of every
    /// byte lies on the canvas and the raw map has room for it.
    pub open spec fn can_load(self, n: int) -> bool {
        forall|i: int| 0 <= i < n ==> #[trigger] self.loads_byte(i)
    }

    /// Whether byte `i` of a saved map has a cell on the canvas and room for
    /// it in the raw map.
    pub open spec fn loads_byte(self, i: int) -> bool {
        &&& map_column(i) < self.width
        &&& map_row(i) < self.height
        &&& load_index(self.width, i) < self.width * self.height
    }

    /// Whether the canvas is no higher than it is wide, so that distinct
    /// cells have distinct indices in the raw map.
    pub open spec fn cells_distinct(self) -> bool {
        self.height <= self.width
    }

    /// Whether the PNG bytes are those of the picture.
    pub open spec fn rendered(self) -> bool {
        png_encoding(self.width, self.height, self.pixels) == Some(self.png)
    }

    /// Whether every pixel of the picture whose cell the raw map has room
    /// for shows the palette colour of the code stored there.
    pub open spec fn shows_data(self) -> bool {
        forall|x: u32, y: u32|
            #![trigger self.pixels[(x, y)]]
            self.holds(x, y) && self.stores(x as int, y as int) ==> self.pixels[(x, y)] == palette(
                self.data[cell(self.width, x as int, y as int)],
            )
    }
}

/// Whether raw index `k` is the cell of a column in `[x0, x1)` and a row in
/// `[y0, y1)`.
pub open spec fn painted(width: u32, x0: int, x1: int, y0: int, y1: int, k: int) -> bool {
    exists|a: int, b: int| x0 <= a < x1 && y0 <= b < y1 && #[trigger] cell(width, a, b) == k
}

/// Whether the pixel `p` lies in the columns `[x0, x1)` and the rows `[y0, y1)`.
pub open spec fn in_rect(p: (u32, u32), x0: int, x1: int, y0: int, y1: int) -> bool {
    x0 <= p.0 < x1 && y0 <= p.1 < y1
}

/// The raw map after every cell of a rectangle got the code `code`.
pub open spec fn paint_data(
    data: Seq<u8>,
    width: u32,
    x0: int,
    x1: int,
    y0: int,
    y1: int,
    code: u8,
) -> Seq<u8> {
    Seq::new(data.len(), |k: int| if painted(width, x0, x1, y0, y1, k) { code } else { data[k] })
}

/// The picture after every pixel of a rectangle got the colour `c`.
pub open spec fn paint_pixels(
    pixels: Map<(u32, u32), Colour>,
    x0: int,
    x1: int,
    y0: int,
    y1: int,
    c: Colour,
) -> Map<(u32, u32), Colour> {
    Map::new(
        |p: (u32, u32)| pixels.dom().contains(p),
        |p: (u32, u32)| if in_rect(p, x0, x1, y0, y1) { c } else { pixels[p] },
    )
}

/// Column of the cell that byte `i` of a saved map is loaded into.
pub open spec fn map_column(i: int) -> int {
    i / 256
}

/// Row of the cell that byte `i` of a saved map is loaded into.
pub open spec fn map_row(i: int) -> int {
    i % 256
}

/// Index in the raw map that byte `i` of a saved map is written to.
pub open spec fn load_index(width: u32, i: int) -> int {
    cell(width, map_column(i), map_row(i))
}

/// The raw map after the bytes of a saved map were written in order, byte
/// `i` at `load_index(width, i)`.
pub open spec fn load_data(data: Seq<u8>, width: u32, buf: Seq<u8>) -> Seq<u8>
    decreases buf.len(),
{
    if buf.len() == 0 {
        data
    } else {
        load_data(data, width, buf.drop_last()).update(
            load_index(width, buf.len() - 1),
            buf.last(),
        )
    }
}

/// The picture after a saved map was loaded: the pixel `(x, y)` with
/// `y < 256` shows byte `256 * x + y` of the map where there is one.
pub open spec fn load_pixels(pixels: Map<(u32, u32), Colour>, buf: Seq<u8>) -> Map<
    (u32, u32),
    Colour,
> {
    Map::new(
        |p: (u32, u32)| pixels.dom().contains(p),
        |p: (u32, u32)|
            if p.1 < 256 && 256 * p.0 + p.1 < buf.len() {
                palette(buf[256 * p.0 + p.1])
            } else {
                pixels[p]
            },
    )
}

/// A cell lies on the canvas exactly when its column is below the width and
/// its row below the height.
pub proof fn lemma_holds_is_on_canvas(v: CanvasView, x: u32, y: u32)
    ensures
        v.holds(x, y) <==> (x < v.width && y < v.height),
{
}

/// A rectangle passes the bounds check of `fill_rect` exactly when its far
/// column `x + width` stays below the width and its far row `y + height`
/// below the height.
pub proof fn lemma_rect_fits_is_bounds_check(v: CanvasView, x: u32, y: u32, width: u32, height: u32)
    ensures
        v.rect_fits(x, y, width, height) <==> (x + width < v.width && y + height < v.height),
{
}

/// Two cells of rows below `width` that share an index of the raw map are
/// the same cell.
pub proof fn lemma_cell_injective(width: u32, a: int, b: int, c: int, d: int)
    requires
        0 <= a,
        0 <= c,
        0 <= b < width,
        0 <= d < width,
        cell(width, a, b) == cell(width, c, d),
    ensures
        a == c,
        b == d,
{
    let w = width as int;
    if a < c {
        assert(c * w >= (a + 1) * w) by (nonlinear_arith)
            requires
                a < c,
                w >= 0,
        ;
        assert((a + 1) * w == a * w + w) by (nonlinear_arith);
    } else if c < a {
        assert(a * w >= (c + 1) * w) by (nonlinear_arith)
            requires
                c < a,
                w >= 0,
        ;
        assert((c + 1) * w == c * w + w) by (nonlinear_arith);
    }
}

/// Cells further right and further down lie further along the raw map.
pub proof fn lemma_cell_monotone(width: u32, a: int, b: int, c: int, d: int)
    requires
        0 <= a <= c,
        0 <= b <= d,
    ensures
        cell(width, a, b) <= cell(width, c, d),
{
    let w = width as int;
    assert(a * w <= c * w) by (nonlinear_arith)
        requires
            0 <= a <= c,
            w >= 0,
    ;
}

/// Painting one more cell of a column.
proof fn lemma_painted_row_step(width: u32, xx: int, y0: int, yy: int, k: int)
    requires
        y0 <= yy,
    ensures
        painted(width, xx, xx + 1, y0, yy + 1, k) == (painted(width, xx, xx + 1, y0, yy, k) || k
            == cell(width, xx, yy)),
{
    if painted(width, xx, xx + 1, y0, yy + 1, k) {
        let (a, b) = choose|a: int, b: int|
            xx <= a < xx + 1 && y0 <= b < yy + 1 && #[trigger] cell(width, a, b) == k;
        if b < yy {
            assert(painted(width, xx, xx + 1, y0, yy, k));
        }
    }
    if painted(width, xx, xx + 1, y0, yy, k) {
        let (a, b) = choose|a: int, b: int|
            xx <= a < xx + 1 && y0 <= b < yy && #[trigger] cell(width, a, b) == k;
        assert(painted(width, xx, xx + 1, y0, yy + 1, k));
    }
    if k == cell(width, xx, yy) {
        assert(painted(width, xx, xx + 1, y0, yy + 1, k));
    }
}

/// Painting one more column.
proof fn lemma_painted_column_step(width: u32, x0: int, xx: int, y0: int, y1: int, k: int)
    requires
        x0 <= xx,
    ensures
        painted(width, x0, xx + 1, y0, y1, k) == (painted(width, x0, xx, y0, y1, k) || painted(
            width,
            xx,
            xx + 1,
            y0,
            y1,
            k,
        )),
{
    if painted(width, x0, xx + 1, y0, y1, k) {
        let (a, b) = choose|a: int, b: int|
            x0 <= a < xx + 1 && y0 <= b < y1 && #[trigger] cell(width, a, b) == k;
        if a < xx {
            assert(painted(width, x0, xx, y0, y1, k));
        } else {
            assert(painted(width, xx, xx + 1, y0, y1, k));
        }
    }
    if painted(width, x0, xx, y0, y1, k) {
        let (a, b) = choose|a: int, b: int|
            x0 <= a < xx && y0 <= b < y1 && #[trigger] cell(width, a, b) == k;
        assert(painted(width, x0, xx + 1, y0, y1, k));
    }
    if painted(width, xx, xx + 1, y0, y1, k) {
        let (a, b) = choose|a: int, b: int|
            xx <= a < xx + 1 && y0 <= b < y1 && #[trigger] cell(width, a, b) == k;
        assert(painted(width, x0, xx + 1, y0, y1, k));
    }
}

/// Byte `i` of a saved map goes to column `i / 256`, row `i % 256`, and no
/// other byte goes there.
proof fn lemma_map_coords(i: int)
    requires
        0 <= i,
    ensures
        i == 256 * map_column(i) + map_row(i),
        0 <= map_row(i) < 256,
        0 <= map_column(i),
        forall|a: int, b: int|
            0 <= b < 256 && #[trigger] (256 * a + b) == i ==> a == map_column(i) && b
                == map_row(i),
{
    vstd::arithmetic::div_mod::lemma_fundamental_div_mod(i, 256);
    assert forall|a: int, b: int| 0 <= b < 256 && #[trigger] (256 * a + b) == i implies a
        == map_column(i) && b == map_row(i) by {
        vstd::arithmetic::div_mod::lemma_fundamental_div_mod_converse(i, 256, a, b);
    }
}

/// When no row reaches the width, the code that loading leaves in the
/// cell `(a, b)` is the byte of the map that belongs to that cell, if there
/// is one.
proof fn lemma_load_data_cell(data: Seq<u8>, width: u32, buf: Seq<u8>, a: int, b: int)
    requires
        0 <= a < width,
        0 <= b < width,
        0 <= cell(width, a, b) < data.len(),
        forall|i: int| 0 <= i < buf.len() ==> #[trigger] map_row(i) < width,
        forall|i: int| 0 <= i < buf.len() ==> 0 <= #[trigger] load_index(width, i) < data.len(),
    ensures
        load_data(data, width, buf).len() == data.len(),
        load_data(data, width, buf)[cell(width, a, b)] == if b < 256 && 256 * a + b < buf.len() {
            buf[256 * a + b]
        } else {
            data[cell(width, a, b)]
        },
    decreases buf.len(),
{
    if buf.len() > 0 {
        let n = buf.len() - 1;
        let prev = buf.drop_last();
        assert forall|i: int| 0 <= i < prev.len() implies #[trigger] map_row(i) < width by {
            assert(map_row(i) < width);
        }
        assert forall|i: int| 0 <= i < prev.len() implies 0 <= #[trigger] load_index(width, i)
            < data.len() by {
            assert(load_index(width, i) < data.len());
        }
        lemma_load_data_cell(data, width, prev, a, b);
        lemma_map_coords(n);
        assert(0 <= load_index(width, n) < data.len());
        if cell(width, a, b) == load_index(width, n) {
            lemma_cell_injective(width, a, b, map_column(n), map_row(n));
        } else if b < 256 && 256 * a + b == n {
            assert(a == map_column(n) && b == map_row(n));
        }
    }
}

/// On a canvas 256 cells wide, byte `i` of a saved map lands at index `i`:
/// the loaded raw map starts with the bytes of the map and keeps the rest.
pub proof fn lemma_load_width_256(data: Seq<u8>, buf: Seq<u8>)
    requires
        buf.len() <= data.len(),
    ensures
        load_data(data, 256, buf) == buf + data.subrange(buf.len() as int, data.len() as int),
    decreases buf.len(),
{
    if buf.len() > 0 {
        let n = buf.len() - 1;
        lemma_load_width_256(data, buf.drop_last());
        lemma_map_coords(n);
        assert(load_index(256, n) == n);
        assert(load_data(data, 256, buf) =~= buf + data.subrange(buf.len() as int, data.len() as int));
    } else {
        assert(load_data(data, 256, buf) =~= buf + data.subrange(0, data.len() as int));
    }
}

/// A map saved from a 256 by 256 canvas (its raw map, as `get_data` gives
/// it) loads into any well-formed 256 by 256 canvas, for instance a fresh one:
/// every byte has a cell there, the raw map becomes the saved map, the
/// picture becomes the saved canvas's picture where that one shows its map,
/// and so the PNG rendering is the saved canvas's where that one was rendered.
pub proof fn lemma_saved_map_round_trip(saved: CanvasView, target: CanvasView)
    requires
        saved.width == 256,
        saved.height == 256,
        saved.data.len() == 256 * 256,
        saved.pixels.dom() == grid(256, 256),
        target.width == 256,
        target.height == 256,
        target.data.len() == 256 * 256,
        target.pixels.dom() == grid(256, 256),
    ensures
        target.can_load(saved.data.len() as int),
        load_data(target.data, 256, saved.data) == saved.data,
        forall|x: u32, y: u32|
            target.holds(x, y) ==> #[trigger] load_pixels(target.pixels, saved.data)[(x, y)]
                == palette(saved.data[cell(256, x as int, y as int)]),
        saved.shows_data() ==> load_pixels(target.pixels, saved.data) == saved.pixels,
        saved.shows_data() && saved.rendered() ==> png_encoding(
            256,
            256,
            load_pixels(target.pixels, saved.data),
        ) == Some(saved.png),
{
    let buf = saved.data;
    assert forall|i: int| 0 <= i < buf.len() implies #[trigger] target.loads_byte(i) by {
        lemma_map_coords(i);
    }
    lemma_load_width_256(target.data, buf);
    assert(load_data(target.data, 256, buf) =~= buf);
    assert forall|x: u32, y: u32| target.holds(x, y) implies #[trigger] load_pixels(
        target.pixels,
        buf,
    )[(x, y)] == palette(buf[cell(256, x as int, y as int)]) by {
        assert(target.pixels.dom().contains((x, y)));
    }
    if saved.shows_data() {
        assert forall|p: (u32, u32)| #[trigger] saved.pixels.dom().contains(p) implies load_pixels(
            target.pixels,
            buf,
        )[p] == saved.pixels[p] by {
            assert(target.holds(p.0, p.1));
            assert(saved.holds(p.0, p.1) && saved.stores(p.0 as int, p.1 as int));
            assert(saved.pixels[(p.0, p.1)] == palette(buf[cell(256, p.0 as int, p.1 as int)]));
        }
        assert(load_pixels(target.pixels, buf) =~= saved.pixels);
    }
}

/// Two rendered canvases of the same size with the same picture hold the
/// same PNG bytes: on well-formed canvases, equal pictures give equal
/// `get_bytes`.
pub proof fn lemma_rendered_bytes_determined(a: CanvasView, b: CanvasView)
    requires
        a.rendered(),
        b.rendered(),
        a.width == b.width,
        a.height == b.height,
        a.pixels == b.pixels,
    ensures
        a.png == b.png,
{
}

/// Filling the same rectangle with the same code twice leaves what the first
/// fill left.
pub proof fn lemma_fill_rect_idempotent(
    data: Seq<u8>,
    pixels: Map<(u32, u32), Colour>,
    width: u32,
    x0: int,
    x1: int,
    y0: int,
    y1: int,
    code: u8,
)
    ensures
        paint_data(paint_data(data, width, x0, x1, y0, y1, code), width, x0, x1, y0, y1, code)
            == paint_data(data, width, x0, x1, y0, y1, code),
        paint_pixels(paint_pixels(pixels, x0, x1, y0, y1, palette(code)), x0, x1, y0, y1, palette(code))
            == paint_pixels(pixels, x0, x1, y0, y1, palette(code)),
{
    assert(paint_data(paint_data(data, width, x0, x1, y0, y1, code), width, x0, x1, y0, y1, code)
        =~= paint_data(data, width, x0, x1, y0, y1, code));
    assert(paint_pixels(paint_pixels(pixels, x0, x1, y0, y1, palette(code)), x0, x1, y0, y1, palette(code))
        =~= paint_pixels(pixels, x0, x1, y0, y1, palette(code)));
}

/// The raw map after the code `code` was written at each cell of `cells`,
/// in order, as a run of `set_pixel` calls writes it.
pub open spec fn write_cells(data: Seq<u8>, width: u32, cells: Seq<(u32, u32)>, code: u8) -> Seq<u8>
    decreases cells.len(),
{
    if cells.len() == 0 {
        data
    } else {
        write_cells(data, width, cells.drop_last(), code).update(
            cell(width, cells.last().0 as int, cells.last().1 as int),
            code,
        )
    }
}

/// The picture after the colour `c` was put at each pixel of `cells`, in
/// order, as a run of `set_pixel` calls puts it.
pub open spec fn put_cells(pixels: Map<(u32, u32), Colour>, cells: Seq<(u32, u32)>, c: Colour) -> Map<
    (u32, u32),
    Colour,
>
    decreases cells.len(),
{
    if cells.len() == 0 {
        pixels
    } else {
        put_cells(pixels, cells.drop_last(), c).insert(cells.last(), c)
    }
}

/// Whether raw index `k` is the cell of one of `cells`.
pub open spec fn written(width: u32, cells: Seq<(u32, u32)>, k: int) -> bool {
    exists|j: int|
        0 <= j < cells.len() && #[trigger] cell(width, cells[j].0 as int, cells[j].1 as int) == k
}

/// What writing a run of cells leaves at each index of the raw map.
proof fn lemma_write_cells(data: Seq<u8>, width: u32, cells: Seq<(u32, u32)>, code: u8, k: int)
    requires
        forall|j: int|
            0 <= j < cells.len() ==> 0 <= #[trigger] cell(
                width,
                cells[j].0 as int,
                cells[j].1 as int,
            ) < data.len(),
        0 <= k < data.len(),
    ensures
        write_cells(data, width, cells, code).len() == data.len(),
        write_cells(data, width, cells, code)[k] == if written(width, cells, k) {
            code
        } else {
            data[k]
        },
    decreases cells.len(),
{
    if cells.len() > 0 {
        let prev = cells.drop_last();
        let n = cells.len() - 1;
        assert forall|j: int| 0 <= j < prev.len() implies 0 <= #[trigger] cell(
            width,
            prev[j].0 as int,
            prev[j].1 as int,
        ) < data.len() by {
            assert(prev[j] == cells[j]);
            assert(0 <= cell(width, cells[j].0 as int, cells[j].1 as int) < data.len());
        }
        lemma_write_cells(data, width, prev, code, k);
        let last = cell(width, cells[n].0 as int, cells[n].1 as int);
        assert(0 <= last < data.len());
        if written(width, cells, k) && k != last {
            let j = choose|j: int|
                0 <= j < cells.len() && #[trigger] cell(width, cells[j].0 as int, cells[j].1 as int)
                    == k;
            assert(prev[j] == cells[j]);
            assert(written(width, prev, k));
        }
        if written(width, prev, k) {
            let j = choose|j: int|
                0 <= j < prev.len() && #[trigger] cell(width, prev[j].0 as int, prev[j].1 as int)
                    == k;
            assert(prev[j] == cells[j]);
            assert(written(width, cells, k));
        }
    }
}

/// What putting a run of pixels leaves at each pixel of the picture.
proof fn lemma_put_cells(pixels: Map<(u32, u32), Colour>, cells: Seq<(u32, u32)>, c: Colour)
    requires
        forall|j: int| 0 <= j < cells.len() ==> pixels.dom().contains(#[trigger] cells[j]),
    ensures
        put_cells(pixels, cells, c) == Map::new(
            |p: (u32, u32)| pixels.dom().contains(p),
            |p: (u32, u32)| if cells.contains(p) { c } else { pixels[p] },
        ),
    decreases cells.len(),
{
    if cells.len() > 0 {
        let prev = cells.drop_last();
        assert forall|j: int| 0 <= j < prev.len() implies pixels.dom().contains(#[trigger] prev[j]) by {
            assert(prev[j] == cells[j]);
        }
        lemma_put_cells(pixels, prev, c);
        assert forall|p: (u32, u32)| #[trigger] cells.contains(p) <==> (prev.contains(p) || p
            == cells.last()) by {
            if cells.contains(p) && p != cells.last() {
                let j = choose|j: int| 0 <= j < cells.len() && cells[j] == p;
                assert(prev[j] == p);
            }
            if prev.contains(p) {
                let j = choose|j: int| 0 <= j < prev.len() && prev[j] == p;
                assert(cells[j] == p);
            }
            if p == cells.last() {
                assert(cells[cells.len() - 1] == p);
            }
        }
        assert(pixels.dom().contains(cells[cells.len() - 1]));
        assert(put_cells(pixels, cells, c) =~= Map::new(
            |p: (u32, u32)| pixels.dom().contains(p),
            |p: (u32, u32)| if cells.contains(p) { c } else { pixels[p] },
        ));
    } else {
        assert(put_cells(pixels, cells, c) =~= Map::new(
            |p: (u32, u32)| pixels.dom().contains(p),
            |p: (u32, u32)| if cells.contains(p) { c } else { pixels[p] },
        ));
    }
}

/// Filling a rectangle paints what writing its cells one by one with
/// `set_pixel` paints, in whatever order the cells are written (each cell
/// once or more, and no cell outside the rectangle).
pub proof fn lemma_rect_is_cell_writes(
    v: CanvasView,
    x: u32,
    y: u32,
    width: u32,
    height: u32,
    code: u8,
    cells: Seq<(u32, u32)>,
)
    requires
        v.data.len() == v.width * v.height,
        v.pixels.dom() == grid(v.width, v.height),
        v.rect_fits(x, y, width, height),
        v.rect_stored(x, y, width, height),
        forall|j: int|
            0 <= j < cells.len() ==> in_rect(#[trigger] cells[j], x as int, x + width, y as int, y
                + height),
        forall|p: (u32, u32)|
            in_rect(p, x as int, x + width, y as int, y + height) ==> #[trigger] cells.contains(p),
    ensures
        write_cells(v.data, v.width, cells, code) == paint_data(
            v.data,
            v.width,
            x as int,
            x + width,
            y as int,
            y + height,
            code,
        ),
        put_cells(v.pixels, cells, palette(code)) == paint_pixels(
            v.pixels,
            x as int,
            x + width,
            y as int,
            y + height,
            palette(code),
        ),
{
    let w = v.width;
    assert forall|j: int|
        0 <= j < cells.len() implies 0 <= #[trigger] cell(
        w,
        cells[j].0 as int,
        cells[j].1 as int,
    ) < v.data.len() by {
        assert(in_rect(cells[j], x as int, x + width, y as int, y + height));
        lemma_cell_monotone(w, cells[j].0 as int, cells[j].1 as int, x + width - 1, y + height - 1);
        assert(0 <= cells[j].0 * w) by (nonlinear_arith);
    }
    assert forall|k: int| 0 <= k < v.data.len() implies #[trigger] write_cells(
        v.data,
        w,
        cells,
        code,
    )[k] == paint_data(v.data, w, x as int, x + width, y as int, y + height, code)[k] by {
        lemma_write_cells(v.data, w, cells, code, k);
        if written(w, cells, k) {
            let j = choose|j: int|
                0 <= j < cells.len() && #[trigger] cell(w, cells[j].0 as int, cells[j].1 as int)
                    == k;
            assert(in_rect(cells[j], x as int, x + width, y as int, y + height));
            assert(painted(w, x as int, x + width, y as int, y + height, k));
        }
        if painted(w, x as int, x + width, y as int, y + height, k) {
            let (a, b) = choose|a: int, b: int|
                x <= a < x + width && y <= b < y + height && #[trigger] cell(w, a, b) == k;
            let p: (u32, u32) = (a as u32, b as u32);
            assert(in_rect(p, x as int, x + width, y as int, y + height));
            assert(cells.contains(p));
            let j = choose|j: int| 0 <= j < cells.len() && cells[j] == p;
            assert(cell(w, cells[j].0 as int, cells[j].1 as int) == k);
        }
    }
    assert(v.width * v.height > 0) by (nonlinear_arith)
        requires
            v.width > 0,
            v.height > 0,
    ;
    lemma_write_cells(v.data, w, cells, code, 0);
    assert(write_cells(v.data, w, cells, code) =~= paint_data(
        v.data,
        w,
        x as int,
        x + width,
        y as int,
        y + height,
        code,
    ));
    assert forall|j: int| 0 <= j < cells.len() implies v.pixels.dom().contains(#[trigger] cells[j]) by {
        assert(in_rect(cells[j], x as int, x + width, y as int, y + height));
    }
    lemma_put_cells(v.pixels, cells, palette(code));
    assert forall|p: (u32, u32)| v.pixels.dom().contains(p) implies #[trigger] cells.contains(p)
        == in_rect(p, x as int, x + width, y as int, y + height) by {
        if cells.contains(p) {
            let j = choose|j: int| 0 <= j < cells.len() && cells[j] == p;
            assert(in_rect(cells[j], x as int, x + width, y as int, y + height));
        }
    }
    assert(put_cells(v.pixels, cells, palette(code)) =~= paint_pixels(
        v.pixels,
        x as int,
        x + width,
        y as int,
        y + height,
        palette(code),
    ));
}

/// Writing a cell twice leaves what the second write wrote: the first write
/// is lost, and writing the same code again changes nothing.
pub proof fn lemma_last_write_wins(v: CanvasView, x: u32, y: u32, p: u8, q: u8)
    requires
        v.data.len() == v.width * v.height,
        v.holds(x, y),
        v.stores(x as int, y as int),
    ensures
        v.data.update(cell(v.width, x as int, y as int), p).update(
            cell(v.width, x as int, y as int),
            q,
        ) == v.data.update(cell(v.width, x as int, y as int), q),
        v.pixels.insert((x, y), palette(p)).insert((x, y), palette(q)) == v.pixels.insert(
            (x, y),
            palette(q),
        ),
{
    let k = cell(v.width, x as int, y as int);
    assert(v.data.update(k, p).update(k, q) =~= v.data.update(k, q));
    assert(v.pixels.insert((x, y), palette(p)).insert((x, y), palette(q)) =~= v.pixels.insert(
        (x, y),
        palette(q),
    ));
}

/// On a canvas no higher than wide, writes to two distinct cells commute:
/// the raw map and the picture come out the same in either order.
pub proof fn lemma_distinct_writes_commute(
    v: CanvasView,
    x1: u32,
    y1: u32,
    p: u8,
    x2: u32,
    y2: u32,
    q: u8,
)
    requires
        v.data.len() == v.width * v.height,
        v.cells_distinct(),
        v.holds(x1, y1),
        v.holds(x2, y2),
        v.stores(x1 as int, y1 as int),
        v.stores(x2 as int, y2 as int),
        (x1, y1) != (x2, y2),
    ensures
        v.data.update(cell(v.width, x1 as int, y1 as int), p).update(
            cell(v.width, x2 as int, y2 as int),
            q,
        ) == v.data.update(cell(v.width, x2 as int, y2 as int), q).update(
            cell(v.width, x1 as int, y1 as int),
            p,
        ),
        v.pixels.insert((x1, y1), palette(p)).insert((x2, y2), palette(q)) == v.pixels.insert(
            (x2, y2),
            palette(q),
        ).insert((x1, y1), palette(p)),
{
    let k1 = cell(v.width, x1 as int, y1 as int);
    let k2 = cell(v.width, x2 as int, y2 as int);
    if k1 == k2 {
        lemma_cell_injective(v.width, x1 as int, y1 as int, x2 as int, y2 as int);
    }
    assert(v.data.update(k1, p).update(k2, q) =~= v.data.update(k2, q).update(k1, p));
    assert(v.pixels.insert((x1, y1), palette(p)).insert((x2, y2), palette(q)) =~= v.pixels.insert(
        (x2, y2),
        palette(q),
    ).insert((x1, y1), palette(p)));
}

/// The sixteen colour codes 0 to 15 are drawn in sixteen different colours,
/// so a pixel's colour tells its code.
pub proof fn lemma_palette_distinct(a: u8, b: u8)
    requires
        a < 16,
        b < 16,
        a != b,
    ensures
        palette(a) != palette(b),
{
}

/// Products of numbers that fit in a `u32`, plus such a number, fit in a
/// `u64`.
proof fn lemma_u32_products(a: int, b: int, c: int)
    requires
        0 <= a <= u32::MAX,
        0 <= b <= u32::MAX,
        0 <= c <= u32::MAX,
    ensures
        a * b + u32::MAX <= u64::MAX,
        b * c <= u64::MAX,
        a * b >= 0,
        b * c >= 0,
{
    assert(a * b <= 0xffff_ffff * 0xffff_ffff) by (nonlinear_arith)
        requires
            0 <= a <= 0xffff_ffff,
            0 <= b <= 0xffff_ffff,
    ;
    assert(b * c <= 0xffff_ffff * 0xffff_ffff) by (nonlinear_arith)
        requires
            0 <= c <= 0xffff_ffff,
            0 <= b <= 0xffff_ffff,
    ;
    assert(a * b >= 0) by (nonlinear_arith)
        requires
            0 <= a,
            0 <= b,
    ;
    assert(b * c >= 0) by (nonlinear_arith)
        requires
            0 <= c,
            0 <= b,
    ;
}

/// A rectangle of one cell paints what `set_pixel` writes: the raw map gets
/// the code at that cell's index, the picture gets its colour at that pixel.
pub proof fn lemma_unit_rect_is_set_pixel(
    data: Seq<u8>,
    pixels: Map<(u32, u32), Colour>,
    width: u32,
    x: u32,
    y: u32,
    code: u8,
)
    requires
        0 <= cell(width, x as int, y as int) < data.len(),
        pixels.dom().contains((x, y)),
    ensures
        paint_data(data, width, x as int, x + 1, y as int, y + 1, code) == data.update(
            cell(width, x as int, y as int),
            code,
        ),
        paint_pixels(pixels, x as int, x + 1, y as int, y + 1, palette(code)) == pixels.insert(
            (x, y),
            palette(code),
        ),
{
    assert forall|k: int| 0 <= k < data.len() implies #[trigger] painted(
        width,
        x as int,
        x + 1,
        y as int,
        y + 1,
        k,
    ) == (k == cell(width, x as int, y as int)) by {
        lemma_painted_row_step(width, x as int, y as int, y as int, k);
    }
    assert(paint_data(data, width, x as int, x + 1, y as int, y + 1, code) =~= data.update(
        cell(width, x as int, y as int),
        code,
    ));
    assert(paint_pixels(pixels, x as int, x + 1, y as int, y + 1, palette(code)) =~= pixels.insert(
        (x, y),
        palette(code),
    ));
}

/// The colour code palette, as the picture draws it.
fn minecraft_to_rgb(color: u8) -> (c: Colour)
    ensures
        c == palette(color),
{
    match color {
        1 => (241, 118, 19),
        2 => (190, 69, 180),
        3 => (58, 175, 218),
        4 => (249, 198, 39),
        5 => (112, 185, 25),
        6 => (238, 141, 173),
        7 => (62, 68, 71),
        8 => (142, 142, 135),
        9 => (21, 138, 145),
        10 => (122, 42, 173),
        11 => (53, 57, 158),
        12 => (114, 71, 40),
        13 => (85, 109, 27),
        14 => (161, 39, 34),
        15 => (20, 21, 25),
        _ => (234, 237, 237),
    }
}

/// Writes `v` at index `i` the way the map is written: an insertion at `i`
/// followed by the removal of the element that it pushed to `i + 1`.
fn replace_at(data: &mut Vec<u8>, i: usize, v: u8)
    requires
        i < old(data).len(),
    ensures
        final(data)@ == old(data)@.update(i as int, v),
{
    let next: usize = i + 1;
    data.insert(i, v);
    data.remove(next);
    assert(data@ =~= old(data)@.update(i as int, v));
}

/// The shared canvas.
pub struct CanvasPicture {
    width: u32,
    height: u32,
    data: Vec<u8>,
    img: PixelBuffer,
    bytes: Vec<u8>,
}

impl View for CanvasPicture {
    type V = CanvasView;

    closed spec fn view(&self) -> CanvasView {
        CanvasView {
            width: self.width,
            height: self.height,
            data: self.data@,
            pixels: image_pixels(self.img),
            png: self.bytes@,
        }
    }
}

impl CanvasPicture {
    /// The canvas has its shape: it is not empty, the raw map has one code
    /// per cell and the picture has the size of the canvas.
    closed spec fn shaped(&self) -> bool {
        &&& self.width > 0
        &&& self.height > 0
        &&& self.width * self.height <= u32::MAX
        &&& self.data@.len() == self.width * self.height
        &&& image_size(self.img) == (self.width, self.height)
        &&& image_pixels(self.img).dom() == grid(self.width, self.height)
    }

    /// The canvas is well formed: it has its shape, its PNG bytes are those
    /// of its picture, and, where no row reaches the width, its picture
    /// shows its raw map.
    pub closed spec fn wf(&self) -> bool {
        &&& self.shaped()
        &&& self@.rendered()
        &&& self@.cells_distinct() ==> self@.shows_data()
    }

    /// What a well-formed canvas is.
    pub proof fn lemma_wf_shape(&self)
        requires
            self.wf(),
        ensures
            self@.width > 0,
            self@.height > 0,
            self@.width * self@.height <= u32::MAX,
            self@.data.len() == self@.width * self@.height,
            self@.pixels.dom() == grid(self@.width, self@.height),
            self@.rendered(),
            self@.cells_distinct() ==> self@.shows_data(),
    {
    }

    /// A blank canvas, rendered: every code is 0, every pixel has the
    /// background colour, and the PNG bytes are those of that picture.
    pub fn new(width: u32, height: u32) -> (c: Self)
        requires
            width > 0,
            height > 0,
            width * height <= u32::MAX,
            3 * width <= usize::MAX,
            3 * width * height <= usize::MAX,
        ensures
            c.wf(),
            c@.width == width,
            c@.height == height,
            c@.data == Seq::new((width * height) as nat, |k: int| 0u8),
            c@.pixels == uniform_pixels(width, height, palette(0)),
            c@.rendered(),
            c@.shows_data(),
    {
        let mut img = new_image(width, height);
        let blank: Colour = (234, 237, 237);
        for x in 0..width
            invariant
                image_size(img) == (width, height),
                image_pixels(img) == Map::new(
                    |p: (u32, u32)| p.0 < width && p.1 < height,
                    |p: (u32, u32)| if p.0 < x { blank } else { (0u8, 0u8, 0u8) },
                ),
        {
            for y in 0..height
                invariant
                    x < width,
                    image_size(img) == (width, height),
                    image_pixels(img) == Map::new(
                        |p: (u32, u32)| p.0 < width && p.1 < height,
                        |p: (u32, u32)|
                            if p.0 < x || (p.0 == x && p.1 < y) {
                                blank
                            } else {
                                (0u8, 0u8, 0u8)
                            },
                    ),
            {
                put_pixel(&mut img, x, y, blank);
                assert(image_pixels(img) =~= Map::new(
                    |p: (u32, u32)| p.0 < width && p.1 < height,
                    |p: (u32, u32)|
                        if p.0 < x || (p.0 == x && p.1 < y + 1) {
                            blank
                        } else {
                            (0u8, 0u8, 0u8)
                        },
                ));
            }
            assert(image_pixels(img) =~= Map::new(
                |p: (u32, u32)| p.0 < width && p.1 < height,
                |p: (u32, u32)| if p.0 < x + 1 { blank } else { (0u8, 0u8, 0u8) },
            ));
        }
        assert(image_pixels(img) =~= uniform_pixels(width, height, palette(0)));
        let mut data: Vec<u8> = Vec::new();
        let n: u32 = width * height;
        for k in 0..n
            invariant
                data@ == Seq::new(k as nat, |j: int| 0u8),
        {
            data.push(0u8);
            assert(data@ =~= Seq::new((k + 1) as nat, |j: int| 0u8));
        }
        let mut c = CanvasPicture { width, height, data, img, bytes: Vec::new() };
        assert(c@.pixels.dom() =~= grid(width, height));
        c.re_export();
        c
    }

    /// Renders the picture as PNG and keeps the bytes.
    fn re_export(&mut self)
        requires
            old(self).shaped(),
        ensures
            final(self).shaped(),
            final(self)@.width == old(self)@.width,
            final(self)@.height == old(self)@.height,
            final(self)@.data == old(self)@.data,
            final(self)@.pixels == old(self)@.pixels,
            final(self)@.rendered(),
    {
        let png = encode_png(&self.img);
        match png {
            Some(bytes) => {
                self.bytes = bytes;
            },
            None => {},
        }
    }

    /// Sets the cell at column `x`, row `y` to the colour code `pixel` and
    /// re-renders the picture. Outside the canvas it changes nothing and
    /// fails with `OutOfBounds`.
    pub fn set_pixel(&mut self, x: u32, y: u32, pixel: u8) -> (r: Result<(), CanvasError>)
        requires
            old(self).wf(),
            old(self)@.holds(x, y) ==> old(self)@.stores(x as int, y as int),
        ensures
            final(self).wf(),
            final(self)@.width == old(self)@.width,
            final(self)@.height == old(self)@.height,
            !old(self)@.holds(x, y) ==> r == Err::<(), CanvasError>(CanvasError::OutOfBounds)
                && final(self)@ == old(self)@,
            old(self)@.holds(x, y) ==> {
                &&& final(self)@.data == old(self)@.data.update(
                    cell(old(self)@.width, x as int, y as int),
                    pixel,
                )
                &&& final(self)@.pixels == old(self)@.pixels.insert((x, y), palette(pixel))
                &&& r == Ok::<(), CanvasError>(())
                &&& final(self)@.rendered()
            },
            old(self)@.cells_distinct() && old(self)@.shows_data() ==> final(self)@.shows_data(),
            r is Err <==> (x >= old(self)@.width || y >= old(self)@.height),
            x < old(self)@.width && y < old(self)@.height ==> final(self)@.data[x * old(
                self,
            )@.width + y] == pixel && final(self)@.pixels[(x, y)] == palette(pixel),
    {
        if x >= self.width || y >= self.height {
            return Err(CanvasError::OutOfBounds);
        }
        let idx: u32 = x * self.width + y;
        replace_at(&mut self.data, idx as usize, pixel);
        put_pixel(&mut self.img, x, y, minecraft_to_rgb(pixel));
        assert(image_pixels(self.img).dom() =~= grid(self.width, self.height));
        proof {
            let before = old(self)@;
            let after = self@;
            if before.cells_distinct() && before.shows_data() {
                assert forall|a: u32, b: u32|
                    #![trigger after.pixels[(a, b)]]
                    after.holds(a, b) && after.stores(a as int, b as int) implies after.pixels[(
                        a,
                        b,
                    )] == palette(after.data[cell(after.width, a as int, b as int)]) by {
                    if (a, b) != (x, y) {
                        assert(before.pixels[(a, b)] == palette(
                            before.data[cell(before.width, a as int, b as int)],
                        ));
                        if cell(after.width, a as int, b as int) == cell(
                            after.width,
                            x as int,
                            y as int,
                        ) {
                            lemma_cell_injective(after.width, a as int, b as int, x as int, y as int);
                        }
                    }
                }
            }
        }
        self.re_export();
        Ok(())
    }

    /// Sets every cell of the rectangle with corner `(x, y)`, `width` columns
    /// and `height` rows to the colour code `color` and re-renders the
    /// picture. A rectangle that reaches the last column or the last row of
    /// the canvas changes nothing and fails with `OutOfBounds`.
    pub fn fill_rect(&mut self, x: u32, y: u32, width: u32, height: u32, color: u8) -> (r: Result<
        (),
        CanvasError,
    >)
        requires
            old(self).wf(),
            x + width <= u32::MAX,
            y + height <= u32::MAX,
            old(self)@.rect_fits(x, y, width, height) ==> old(self)@.rect_stored(
                x,
                y,
                width,
                height,
            ),
        ensures
            final(self).wf(),
            final(self)@.width == old(self)@.width,
            final(self)@.height == old(self)@.height,
            !old(self)@.rect_fits(x, y, width, height) ==> r == Err::<(), CanvasError>(
                CanvasError::OutOfBounds,
            ) && final(self)@ == old(self)@,
            old(self)@.rect_fits(x, y, width, height) ==> {
                &&& final(self)@.data == paint_data(
                    old(self)@.data,
                    old(self)@.width,
                    x as int,
                    x + width,
                    y as int,
                    y + height,
                    color,
                )
                &&& final(self)@.pixels == paint_pixels(
                    old(self)@.pixels,
                    x as int,
                    x + width,
                    y as int,
                    y + height,
                    palette(color),
                )
                &&& r == Ok::<(), CanvasError>(())
                &&& final(self)@.rendered()
            },
            old(self)@.cells_distinct() && old(self)@.shows_data() ==> final(self)@.shows_data(),
            old(self)@.rect_fits(x, y, width, height) && (width == 0 || height == 0)
                ==> final(self)@ == old(self)@,
            r is Err <==> (x + width >= old(self)@.width || y + height >= old(self)@.height),
            r is Ok ==> forall|a: u32, b: u32|
                x <= a < x + width && y <= b < y + height ==> #[trigger] final(self)@.pixels[(
                    a,
                    b,
                )] == palette(color),
            r is Ok ==> forall|a: u32, b: u32|
                x <= a < x + width && y <= b < y + height ==> #[trigger] final(self)@.data[cell(
                    old(self)@.width,
                    a as int,
                    b as int,
                )] == color,
    {
        if x + width >= self.width || y + height >= self.height {
            return Err(CanvasError::OutOfBounds);
        }
        let color_rgb = minecraft_to_rgb(color);
        let ghost before = self@;
        let ghost w = self.width;
        let ghost h = self.height;
        let x_end: u32 = x + width;
        let y_end: u32 = y + height;
        let mut xx: u32 = x;
        while xx < x_end
            invariant
                self.shaped(),
                self@.width == w,
                self@.height == h,
                self@.png == before.png,
                x <= xx <= x_end,
                x_end == x + width,
                y_end == y + height,
                x_end < w,
                y_end < h,
                color_rgb == palette(color),
                before.rect_stored(x, y, width, height),
                before.width == w,
                before.height == h,
                self@.data.len() == before.data.len(),
                forall|k: int|
                    #![trigger self@.data[k]]
                    0 <= k < before.data.len() ==> self@.data[k] == if painted(
                        w,
                        x as int,
                        xx as int,
                        y as int,
                        y_end as int,
                        k,
                    ) {
                        color
                    } else {
                        before.data[k]
                    },
                self@.pixels.dom() == before.pixels.dom(),
                forall|p: (u32, u32)|
                    #![trigger self@.pixels[p]]
                    self@.pixels.dom().contains(p) ==> self@.pixels[p] == if in_rect(
                        p,
                        x as int,
                        xx as int,
                        y as int,
                        y_end as int,
                    ) {
                        palette(color)
                    } else {
                        before.pixels[p]
                    },
            decreases x_end - xx,
        {
            let mut yy: u32 = y;
            while yy < y_end
                invariant
                    self.shaped(),
                    self@.width == w,
                    self@.height == h,
                    self@.png == before.png,
                    x <= xx < x_end,
                    y <= yy <= y_end,
                    x_end == x + width,
                    y_end == y + height,
                    x_end < w,
                    y_end < h,
                    color_rgb == palette(color),
                    before.rect_stored(x, y, width, height),
                    before.width == w,
                    before.height == h,
                    self@.data.len() == before.data.len(),
                    forall|k: int|
                        #![trigger self@.data[k]]
                        0 <= k < before.data.len() ==> self@.data[k] == if painted(
                            w,
                            x as int,
                            xx as int,
                            y as int,
                            y_end as int,
                            k,
                        ) || painted(w, xx as int, xx + 1, y as int, yy as int, k) {
                            color
                        } else {
                            before.data[k]
                        },
                    self@.pixels.dom() == before.pixels.dom(),
                    forall|p: (u32, u32)|
                        #![trigger self@.pixels[p]]
                        self@.pixels.dom().contains(p) ==> self@.pixels[p] == if in_rect(
                            p,
                            x as int,
                            xx as int,
                            y as int,
                            y_end as int,
                        ) || (p.0 == xx && y <= p.1 < yy) {
                            palette(color)
                        } else {
                            before.pixels[p]
                        },
                decreases y_end - yy,
            {
                proof {
                    lemma_cell_monotone(
                        w,
                        xx as int,
                        yy as int,
                        x_end - 1,
                        y_end - 1,
                    );
                    assert(xx * w <= cell(w, xx as int, yy as int)) by (nonlinear_arith)
                        requires
                            yy >= 0,
                    ;
                }
                let idx: u32 = xx * self.width + yy;
                let ghost data_before = self@.data;
                replace_at(&mut self.data, idx as usize, color);
                put_pixel(&mut self.img, xx, yy, color_rgb);
                proof {
                    assert forall|k: int|
                        #![trigger self@.data[k]]
                        0 <= k < before.data.len() implies self@.data[k] == if painted(
                            w,
                            x as int,
                            xx as int,
                            y as int,
                            y_end as int,
                            k,
                        ) || painted(w, xx as int, xx + 1, y as int, yy + 1, k) {
                            color
                        } else {
                            before.data[k]
                        } by {
                        lemma_painted_row_step(w, xx as int, y as int, yy as int, k);
                        if k != idx {
                            assert(self@.data[k] == data_before[k]);
                        }
                    }
                    assert(image_pixels(self.img).dom() =~= grid(w, h));
                }
                yy = yy + 1;
            }
            proof {
                assert forall|k: int|
                    #![trigger self@.data[k]]
                    0 <= k < before.data.len() implies self@.data[k] == if painted(
                        w,
                        x as int,
                        xx + 1,
                        y as int,
                        y_end as int,
                        k,
                    ) {
                        color
                    } else {
                        before.data[k]
                    } by {
                    lemma_painted_column_step(w, x as int, xx as int, y as int, y_end as int, k);
                }
            }
            xx = xx + 1;
        }
        proof {
            assert(self@.data =~= paint_data(
                before.data,
                w,
                x as int,
                x + width,
                y as int,
                y + height,
                color,
            ));
            assert(self@.pixels =~= paint_pixels(
                before.pixels,
                x as int,
                x + width,
                y as int,
                y + height,
                palette(color),
            ));
            if width == 0 || height == 0 {
                assert(self@.data =~= before.data);
                assert(self@.pixels =~= before.pixels);
            }
            assert forall|a: u32, b: u32|
                #![trigger self@.pixels[(a, b)]]
                x <= a < x + width && y <= b < y + height implies self@.data[a * w + b] == color
                    && self@.pixels[(a, b)] == palette(color) by {
                lemma_cell_monotone(w, a as int, b as int, x + width - 1, y + height - 1);
                assert(0 <= a * w) by (nonlinear_arith);
                assert(cell(w, a as int, b as int) == a * w + b);
                assert(painted(w, x as int, x + width, y as int, y + height, a * w + b));
                assert(self@.pixels.dom().contains((a, b)));
            }
            if before.cells_distinct() && before.shows_data() {
                let after = self@;
                assert forall|a: u32, b: u32|
                    #![trigger after.pixels[(a, b)]]
                    after.holds(a, b) && after.stores(a as int, b as int) implies after.pixels[(
                        a,
                        b,
                    )] == palette(after.data[cell(w, a as int, b as int)]) by {
                    let k = cell(w, a as int, b as int);
                    assert(before.pixels[(a, b)] == palette(before.data[k]));
                    assert(after.data[k] == if painted(
                        w,
                        x as int,
                        x + width,
                        y as int,
                        y + height,
                        k,
                    ) {
                        color
                    } else {
                        before.data[k]
                    });
                    if in_rect((a, b), x as int, x + width, y as int, y + height) {
                        assert(painted(w, x as int, x + width, y as int, y + height, k));
                    } else if painted(w, x as int, x + width, y as int, y + height, k) {
                        let (c, d) = choose|c: int, d: int|
                            x <= c < x + width && y <= d < y + height && #[trigger] cell(w, c, d)
                                == k;
                        lemma_cell_injective(w, a as int, b as int, c, d);
                    }
                }
            }
        }
        let ghost painted_view = self@;
        self.re_export();
        assert forall|a: u32, b: u32|
            x <= a < x + width && y <= b < y + height implies #[trigger] self@.data[cell(
                w,
                a as int,
                b as int,
            )] == color by {
            assert(painted_view.pixels[(a, b)] == palette(color));
            assert(painted_view.data[a * w + b] == color);
        }
        Ok(())
    }

    /// Loads a saved map (the bytes that `get_data` gave): byte `i` becomes
    /// the code of the cell at column `i / 256`, row `i % 256`, in order;
    /// then re-renders the picture.
    pub fn load_map(&mut self, buf: &[u8])
        requires
            old(self).wf(),
            old(self)@.can_load(buf@.len() as int),
        ensures
            final(self).wf(),
            final(self)@.width == old(self)@.width,
            final(self)@.height == old(self)@.height,
            final(self)@.data == load_data(old(self)@.data, old(self)@.width, buf@),
            final(self)@.pixels == load_pixels(old(self)@.pixels, buf@),
            final(self)@.rendered(),
            old(self)@.cells_distinct() && old(self)@.shows_data() ==> final(self)@.shows_data(),
    {
        let ghost before = self@;
        let ghost w = self.width;
        let ghost h = self.height;
        let mut i: usize = 0;
        while i < buf.len()
            invariant
                self.shaped(),
                self@.width == w,
                self@.height == h,
                self@.png == before.png,
                before.width == w,
                before.height == h,
                i <= buf@.len(),
                before.can_load(buf@.len() as int),
                self@.data == load_data(before.data, w, buf@.take(i as int)),
                self@.pixels.dom() == before.pixels.dom(),
                forall|p: (u32, u32)|
                    #![trigger self@.pixels[p]]
                    self@.pixels.dom().contains(p) ==> self@.pixels[p] == if p.1 < 256 && 256
                        * p.0 + p.1 < i {
                        palette(buf@[256 * p.0 + p.1])
                    } else {
                        before.pixels[p]
                    },
            decreases buf@.len() - i,
        {
            proof {
                lemma_map_coords(i as int);
                assert(before.loads_byte(i as int));
                assert(map_column(i as int) * w <= load_index(w, i as int)) by (nonlinear_arith)
                    requires
                        map_row(i as int) >= 0,
                ;
            }
            let x: u32 = (i / 256) as u32;
            let y: u32 = (i % 256) as u32;
            let idx: u32 = x * self.width + y;
            replace_at(&mut self.data, idx as usize, buf[i]);
            put_pixel(&mut self.img, x, y, minecraft_to_rgb(buf[i]));
            proof {
                assert(buf@.take(i + 1).drop_last() =~= buf@.take(i as int));
                assert(image_pixels(self.img).dom() =~= grid(w, h));
                assert forall|p: (u32, u32)|
                    #![trigger self@.pixels[p]]
                    self@.pixels.dom().contains(p) implies self@.pixels[p] == if p.1 < 256 && 256
                        * p.0 + p.1 < i + 1 {
                        palette(buf@[256 * p.0 + p.1])
                    } else {
                        before.pixels[p]
                    } by {
                    if p.1 < 256 && 256 * p.0 + p.1 == i {
                        assert(p.0 == x && p.1 == y);
                    }
                }
            }
            i = i + 1;
        }
        proof {
            assert(buf@.take(buf@.len() as int) =~= buf@);
            assert(self@.pixels =~= load_pixels(before.pixels, buf@));
            if before.cells_distinct() && before.shows_data() {
                let after = self@;
                assert forall|a: u32, b: u32|
                    #![trigger after.pixels[(a, b)]]
                    after.holds(a, b) && after.stores(a as int, b as int) implies after.pixels[(
                        a,
                        b,
                    )] == palette(after.data[cell(w, a as int, b as int)]) by {
                    assert(before.pixels[(a, b)] == palette(
                        before.data[cell(w, a as int, b as int)],
                    ));
                    assert forall|j: int| 0 <= j < buf@.len() implies #[trigger] map_row(j) < w by {
                        assert(before.loads_byte(j));
                    }
                    assert forall|j: int| 0 <= j < buf@.len() implies 0 <= #[trigger] load_index(
                        w,
                        j,
                    ) < before.data.len() by {
                        assert(before.loads_byte(j));
                        lemma_map_coords(j);
                        assert(0 <= map_column(j) * w) by (nonlinear_arith)
                            requires
                                map_column(j) >= 0,
                        ;
                    }
                    lemma_load_data_cell(before.data, w, buf@, a as int, b as int);
                }
            }
        }
        self.re_export();
    }

    /// A map saved from a well-formed 256 by 256 canvas (`saved.get_data()`)
    /// loads into any well-formed 256 by 256 canvas, a fresh one included:
    /// `load_map` may be called with it, and then leaves the raw map, the
    /// picture and so the PNG bytes of `saved`.
    pub proof fn lemma_saved_canvas_round_trip(saved: &CanvasPicture, target: &CanvasPicture)
        requires
            saved.wf(),
            target.wf(),
            saved@.width == 256,
            saved@.height == 256,
            target@.width == 256,
            target@.height == 256,
        ensures
            target@.can_load(saved@.data.len() as int),
            load_data(target@.data, 256, saved@.data) == saved@.data,
            load_pixels(target@.pixels, saved@.data) == saved@.pixels,
            png_encoding(256, 256, load_pixels(target@.pixels, saved@.data)) == Some(saved@.png),
    {
        lemma_saved_map_round_trip(saved@, target@);
    }

    /// Whether `set_pixel(x, y, _)` may be called: a cell on the canvas must
    /// have room in the raw map.
    pub fn can_set_pixel(&self, x: u32, y: u32) -> (b: bool)
        requires
            self.wf(),
        ensures
            b == (self@.holds(x, y) ==> self@.stores(x as int, y as int)),
    {
        if x >= self.width || y >= self.height {
            return true;
        }
        proof {
            lemma_u32_products(x as int, self.width as int, self.height as int);
        }
        let k: u64 = x as u64 * self.width as u64 + y as u64;
        k < self.width as u64 * self.height as u64
    }

    /// Whether `fill_rect(x, y, width, height, _)` may be called: the far
    /// edges must be computable, and every cell of a rectangle that passes the
    /// bounds check must have room in the raw map.
    pub fn can_fill_rect(&self, x: u32, y: u32, width: u32, height: u32) -> (b: bool)
        requires
            self.wf(),
        ensures
            b == (x + width <= u32::MAX && y + height <= u32::MAX && (self@.rect_fits(
                x,
                y,
                width,
                height,
            ) ==> self@.rect_stored(x, y, width, height))),
    {
        if x as u64 + width as u64 > u32::MAX as u64 || y as u64 + height as u64 > u32::MAX as u64 {
            return false;
        }
        if x + width >= self.width || y + height >= self.height || width == 0 || height == 0 {
            return true;
        }
        proof {
            lemma_u32_products((x + width - 1) as int, self.width as int, self.height as int);
        }
        let k: u64 = (x + width - 1) as u64 * self.width as u64 + (y + height - 1) as u64;
        k < self.width as u64 * self.height as u64
    }

    /// Whether `load_map` may be called with a map of `n` bytes.
    pub fn can_load_map(&self, n: usize) -> (b: bool)
        requires
            self.wf(),
        ensures
            b == self@.can_load(n as int),
    {
        let w: u64 = self.width as u64;
        let h: u64 = self.height as u64;
        let mut i: usize = 0;
        while i < n
            invariant
                i <= n,
                w == self@.width,
                h == self@.height,
                self@.can_load(i as int),
            decreases n - i,
        {
            let x: u64 = (i / 256) as u64;
            let y: u64 = (i % 256) as u64;
            assert(x == map_column(i as int) && y == map_row(i as int));
            if x >= w || y >= h {
                proof {
                    if self@.can_load(n as int) {
                        assert(self@.loads_byte(i as int));
                    }
                }
                return false;
            }
            proof {
                lemma_u32_products(x as int, w as int, h as int);
            }
            if x * w + y >= w * h {
                proof {
                    if self@.can_load(n as int) {
                        assert(self@.loads_byte(i as int));
                    }
                }
                return false;
            }
            assert(self@.loads_byte(i as int));
            assert forall|j: int| 0 <= j < i + 1 implies #[trigger] self@.loads_byte(j) by {
                if j < i {
                    assert(self@.loads_byte(j));
                }
            }
            i = i + 1;
        }
        true
    }

    /// The raw map: one colour code per cell.
    pub fn get_data(&self) -> (d: &[u8])
        ensures
            d@ == self@.data,
    {
        self.data.as_slice()
    }

    /// A copy of the PNG bytes last rendered.
    pub fn get_bytes(&self) -> (b: Vec<u8>)
        ensures
            b@ == self@.png,
    {
        let b = self.bytes.clone();
        assert(b@ =~= self.bytes@);
        b
    }
}

} // verus!
