use vstd::prelude::*;
use crate::canvas::{pixel_index, Canvas, Pixel, TILE_HEIGHT, TILE_WIDTH};
use crate::bytes::{le_u16, read_u16};
use crate::color::{rgb16_565_produce_color, rgb565_blue, rgb565_green, rgb565_red, Color, TILE_PIXEL_NUMBER};

verus! {

/// A ground or building tile: 1024 colours filling the diamond mask row by row.
#[derive(Debug)]
pub struct Tile {
    pub colors: Vec<Color>,
}

impl Tile {
    pub open spec fn wf(&self) -> bool {
        self.colors@.len() == TILE_PIXEL_NUMBER
    }
}

/// Bytes of one tile in a tileset file: 1024 pixels of 16 bits.
pub const TILE_BYTES: usize = 2048;

/// Colour `k` of tile `t` of a tileset file.
pub open spec fn tileset_color(d: Seq<u8>, t: int, k: int) -> Color {
    let px = le_u16(d, 2048 * t + 2 * k) as u16;
    Color { r: rgb565_red(px) as u8, g: rgb565_green(px) as u8, b: rgb565_blue(px) as u8 }
}

/// Decodes a tileset file: consecutive tiles of 1024 little-endian 5-6-5
/// pixels; trailing bytes that do not make a whole tile are ignored.
pub fn read_tileset(data: &[u8]) -> (r: Vec<Tile>)
    ensures
        r@.len() == data@.len() / 2048,
        forall|t: int| 0 <= t < r@.len() ==> (#[trigger] r@[t]).wf(),
        forall|t: int, k: int| 0 <= t < r@.len() && 0 <= k < 1024 ==> #[trigger] r@[t].colors@[k] == tileset_color(data@, t, k),
{
    let tile_number = data.len() / TILE_BYTES;
    let mut tiles: Vec<Tile> = Vec::new();
    let mut pos: u64 = 0;
    let mut t: usize = 0;
    while t < tile_number
        invariant
            tile_number == data@.len() / 2048,
            t <= tile_number,
            pos == 2048 * t,
            tiles@.len() == t,
            forall|u: int| 0 <= u < t ==> (#[trigger] tiles@[u]).wf(),
            forall|u: int, k: int| 0 <= u < t && 0 <= k < 1024 ==> #[trigger] tiles@[u].colors@[k] == tileset_color(data@, u, k),
        decreases tile_number - t,
    {
        let mut colors: Vec<Color> = Vec::new();
        let mut k: usize = 0;
        while k < TILE_PIXEL_NUMBER
            invariant
                tile_number == data@.len() / 2048,
                t < tile_number,
                pos == 2048 * t + 2 * k,
                k <= 1024,
                colors@.len() == k,
                forall|q: int| 0 <= q < k ==> #[trigger] colors@[q] == tileset_color(data@, t as int, q),
            decreases 1024 - k,
        {
            proof {
                assert(2048 * t + 2048 <= data@.len()) by (nonlinear_arith)
                    requires t < tile_number, tile_number == data@.len() / 2048;
            }
            let pixel = match read_u16(data, &mut pos) {
                Ok(v) => v,
                Err(_) => {
                    proof {
                        assert(false);
                    }
                    0
                },
            };
            colors.push(rgb16_565_produce_color(pixel));
            k = k + 1;
        }
        let ghost before = tiles@;
        tiles.push(Tile { colors });
        proof {
            assert forall|u: int, q: int| 0 <= u < t + 1 && 0 <= q < 1024 implies #[trigger] tiles@[u].colors@[q] == tileset_color(data@, u, q) by {
                if u < t {
                    assert(tiles@[u] == before[u]);
                }
            }
            assert forall|u: int| 0 <= u < t + 1 implies (#[trigger] tiles@[u]).wf() by {
                if u < t {
                    assert(tiles@[u] == before[u]);
                }
            }
        }
        t = t + 1;
    }
    tiles
}

/// Half the width of row `y` of the diamond mask: it grows by two per row up
/// to 31, then shrinks by two per row.
pub open spec fn mask_half_width(y: int) -> int {
    if y < 16 { 1 + 2 * y } else { 63 - 2 * y }
}

/// Left edge of row `y` of the mask within the 62-pixel-wide tile box.
pub open spec fn mask_offset(y: int) -> int {
    31 - mask_half_width(y)
}

/// Number of pixels in row `y` of the mask.
pub open spec fn mask_width(y: int) -> int {
    2 * mask_half_width(y)
}

/// Per-row left offsets and widths of the diamond mask.
#[derive(Debug)]
pub struct TileMask {
    pub offsets: Vec<i32>,
    pub widths: Vec<i32>,
}

/// Builds the diamond mask of a tile, one entry per row.
pub fn create_mask() -> (m: TileMask)
    ensures
        m.offsets@.len() == TILE_HEIGHT,
        m.widths@.len() == TILE_HEIGHT,
        forall|y: int| 0 <= y < TILE_HEIGHT ==> #[trigger] m.offsets@[y] == mask_offset(y),
        forall|y: int| 0 <= y < TILE_HEIGHT ==> #[trigger] m.widths@[y] == mask_width(y),
{
    let mut offsets: Vec<i32> = Vec::new();
    let mut widths: Vec<i32> = Vec::new();
    let mut pixels_x: i32 = 1;
    let step: i32 = 2;
    let mut direction: i32 = 1;
    let limit: i32 = 31;
    let mut y: u32 = 0;
    while y < TILE_HEIGHT
        invariant
            y <= 32,
            step == 2,
            limit == 31,
            offsets@.len() == y,
            widths@.len() == y,
            y < 32 ==> pixels_x == mask_half_width(y as int),
            y <= 15 ==> direction == 1,
            y >= 16 ==> direction == -1,
            forall|j: int| 0 <= j < y ==> #[trigger] offsets@[j] == mask_offset(j),
            forall|j: int| 0 <= j < y ==> #[trigger] widths@[j] == mask_width(j),
        decreases 32 - y,
    {
        offsets.push((TILE_WIDTH as i32) / 2 - pixels_x);
        widths.push(pixels_x * 2);
        pixels_x = pixels_x + step * direction;
        if pixels_x > limit {
            direction = -1;
            pixels_x = limit;
        }
        y = y + 1;
    }
    TileMask { offsets, widths }
}

/// The tile box at `(dest_x, dest_y)` lies wholly inside a canvas of the given size.
pub open spec fn tile_fits(width: int, height: int, dest_x: int, dest_y: int) -> bool {
    dest_x >= 0 && dest_y >= 0 && dest_x + 62 <= width && dest_y + 32 <= height
}

/// Row and column, within the tile box at `(dest_x, dest_y)`, of canvas pixel `(cx, cy)`,
/// when the diamond covers it.
pub open spec fn tile_covers(dest_x: int, dest_y: int, cx: int, cy: int) -> bool {
    let ty = cy - dest_y;
    0 <= ty < 32 && mask_offset(ty) <= cx - dest_x < mask_offset(ty) + mask_width(ty)
}

/// Which of the 1024 tile colours lands on canvas pixel `(cx, cy)` when the diamond covers it.
pub open spec fn tile_color_index(dest_x: int, dest_y: int, cx: int, cy: int) -> int {
    let ty = cy - dest_y;
    row_start(ty) + (cx - dest_x - mask_offset(ty))
}

/// A colour that is drawn: no channel is zero.
pub open spec fn opaque(c: Color) -> bool {
    c.r != 0 && c.g != 0 && c.b != 0
}

/// Canvas pixel `q`, previously `before`, after the tile is drawn at
/// `(dest_x, dest_y)` on a canvas of the given width; `visited` says whether the
/// drawing has reached that pixel yet.
pub open spec fn tile_pixel(colors: Seq<Color>, dest_x: int, dest_y: int, width: int, q: int, before: Pixel, visited: bool) -> Pixel {
    let cx = q % width;
    let cy = q / width;
    if visited && tile_covers(dest_x, dest_y, cx, cy) && opaque(colors[tile_color_index(dest_x, dest_y, cx, cy)]) {
        let c = colors[tile_color_index(dest_x, dest_y, cx, cy)];
        Pixel { r: c.r, g: c.g, b: c.b, a: 255 }
    } else {
        before
    }
}

/// Whether drawing has reached tile row `y`, column `x` (counted from the row's mask offset)
/// by the time canvas pixel `q` is considered.
pub open spec fn tile_visited(dest_x: int, dest_y: int, width: int, q: int, y: int, x: int) -> bool {
    let ty = q / width - dest_y;
    let col = q % width - dest_x - mask_offset(ty);
    ty < y || (ty == y && col < x)
}

/// The pixels of a canvas of the given size after the tile is drawn at `(dest_x, dest_y)`.
pub open spec fn apply_tile(px: Seq<Pixel>, width: int, height: int, colors: Seq<Color>, dest_x: int, dest_y: int) -> Seq<Pixel> {
    if tile_fits(width, height, dest_x, dest_y) {
        Seq::new(px.len(), |q: int| tile_pixel(colors, dest_x, dest_y, width, q, px[q], true))
    } else {
        px
    }
}

/// Draws a tile's colours through the diamond mask with its box's top-left
/// corner at `(dest_x, dest_y)`. Black-channel colours (any channel 0) are
/// transparent; a tile that does not fit wholly on the canvas is not drawn.
pub fn plot_tile(canvas: &mut Canvas, colors: &Vec<Color>, dest_x: i32, dest_y: i32)
    requires
        old(canvas).wf(),
        colors@.len() == TILE_PIXEL_NUMBER,
    ensures
        final(canvas).wf(),
        final(canvas).width == old(canvas).width,
        final(canvas).height == old(canvas).height,
        final(canvas).pixels@ == apply_tile(
            old(canvas).pixels@,
            old(canvas).width as int,
            old(canvas).height as int,
            colors@,
            dest_x as int,
            dest_y as int,
        ),
        !tile_fits(old(canvas).width as int, old(canvas).height as int, dest_x as int, dest_y as int)
            ==> final(canvas).pixels@ == old(canvas).pixels@,
        tile_fits(old(canvas).width as int, old(canvas).height as int, dest_x as int, dest_y as int)
            ==> forall|q: int| 0 <= q < old(canvas).pixels@.len() ==> #[trigger] final(canvas).pixels@[q] == tile_pixel(
                colors@,
                dest_x as int,
                dest_y as int,
                old(canvas).width as int,
                q,
                old(canvas).pixels@[q],
                true,
            ),
{
    if !(dest_x as i64 + TILE_WIDTH as i64 <= canvas.width as i64 && dest_x >= 0 && dest_y >= 0
        && dest_y as i64 + TILE_HEIGHT as i64 <= canvas.height as i64) {
        return;
    }
    let mask = create_mask();
    let mut i: usize = 0;
    let mut y: u32 = 0;
    while y < TILE_HEIGHT
        invariant
            canvas.wf(),
            canvas.width == old(canvas).width,
            canvas.height == old(canvas).height,
            tile_fits(canvas.width as int, canvas.height as int, dest_x as int, dest_y as int),
            colors@.len() == TILE_PIXEL_NUMBER,
            mask.offsets@.len() == TILE_HEIGHT,
            mask.widths@.len() == TILE_HEIGHT,
            forall|j: int| 0 <= j < TILE_HEIGHT ==> #[trigger] mask.offsets@[j] == mask_offset(j),
            forall|j: int| 0 <= j < TILE_HEIGHT ==> #[trigger] mask.widths@[j] == mask_width(j),
            y <= 32,
            i == row_start(y as int),
            canvas.pixels@.len() == old(canvas).pixels@.len(),
            forall|q: int| 0 <= q < old(canvas).pixels@.len() ==> #[trigger] canvas.pixels@[q] == tile_pixel(
                colors@,
                dest_x as int,
                dest_y as int,
                canvas.width as int,
                q,
                old(canvas).pixels@[q],
                tile_visited(dest_x as int, dest_y as int, canvas.width as int, q, y as int, 0),
            ),
        decreases 32 - y,
    {
        let row_width = mask.widths[y as usize];
        let row_offset = mask.offsets[y as usize];
        let mut x: i32 = 0;
        proof {
            lemma_row_start_step(y as int);
        }
        while x < row_width
            invariant
                canvas.wf(),
                canvas.width == old(canvas).width,
                canvas.height == old(canvas).height,
                tile_fits(canvas.width as int, canvas.height as int, dest_x as int, dest_y as int),
                colors@.len() == TILE_PIXEL_NUMBER,
                y < 32,
                row_width == mask_width(y as int),
                row_offset == mask_offset(y as int),
                0 <= x <= row_width,
                i == row_start(y as int) + x,
                row_start(y as int) + mask_width(y as int) == row_start(y as int + 1),
                row_start(y as int + 1) <= 1024,
                1 <= mask_half_width(y as int) <= 31,
                canvas.pixels@.len() == old(canvas).pixels@.len(),
                forall|q: int| 0 <= q < old(canvas).pixels@.len() ==> #[trigger] canvas.pixels@[q] == tile_pixel(
                    colors@,
                    dest_x as int,
                    dest_y as int,
                    canvas.width as int,
                    q,
                    old(canvas).pixels@[q],
                    tile_visited(dest_x as int, dest_y as int, canvas.width as int, q, y as int, x as int),
                ),
            decreases row_width - x,
        {
            let pixel: Color = colors[i];
            i = i + 1;
            let final_x: i64 = dest_x as i64 + x as i64 + row_offset as i64;
            let final_y: i64 = dest_y as i64 + y as i64;
            let ghost before = canvas.pixels@;
            let ghost w = canvas.width as int;
            let ghost t = pixel_index(w, final_x as int, final_y as int);
            proof {
                crate::canvas::lemma_pixel_index_in_bounds(w, canvas.height as int, final_x as int, final_y as int);
                vstd::arithmetic::div_mod::lemma_fundamental_div_mod_converse(t, w, final_y as int, final_x as int);
                assert(tile_covers(dest_x as int, dest_y as int, final_x as int, final_y as int));
                assert(tile_color_index(dest_x as int, dest_y as int, final_x as int, final_y as int) == i - 1);
            }
            if pixel.r != 0 && pixel.g != 0 && pixel.b != 0 {
                canvas.put_pixel(final_x as u32, final_y as u32, Pixel { r: pixel.r, g: pixel.g, b: pixel.b, a: 255 });
            }
            proof {
                assert forall|q: int| 0 <= q < old(canvas).pixels@.len() implies #[trigger] canvas.pixels@[q] == tile_pixel(
                    colors@,
                    dest_x as int,
                    dest_y as int,
                    w,
                    q,
                    old(canvas).pixels@[q],
                    tile_visited(dest_x as int, dest_y as int, w, q, y as int, x as int + 1),
                ) by {
                    if q == t {
                    } else {
                        vstd::arithmetic::div_mod::lemma_fundamental_div_mod(q, w);
                        assert(canvas.pixels@[q] == before[q]);
                        if q / w == final_y as int && q % w == final_x as int {
                            assert(q == w * (q / w) + q % w);
                            assert(w * (q / w) == (q / w) * w) by (nonlinear_arith);
                            assert(q == t);
                        }
                    }
                }
            }
            x = x + 1;
        }
        proof {
            assert forall|q: int| 0 <= q < old(canvas).pixels@.len() implies #[trigger] canvas.pixels@[q] == tile_pixel(
                colors@,
                dest_x as int,
                dest_y as int,
                canvas.width as int,
                q,
                old(canvas).pixels@[q],
                tile_visited(dest_x as int, dest_y as int, canvas.width as int, q, y as int + 1, 0),
            ) by {
                let w = canvas.width as int;
                let ty = q / w - dest_y;
                if ty == y as int && tile_covers(dest_x as int, dest_y as int, q % w, q / w) {
                    assert(tile_visited(dest_x as int, dest_y as int, w, q, y as int, x as int));
                }
            }
        }
        y = y + 1;
    }
    proof {
        assert forall|q: int| 0 <= q < old(canvas).pixels@.len() implies #[trigger] canvas.pixels@[q] == tile_pixel(
            colors@,
            dest_x as int,
            dest_y as int,
            old(canvas).width as int,
            q,
            old(canvas).pixels@[q],
            true,
        ) by {
            let w = canvas.width as int;
            if tile_covers(dest_x as int, dest_y as int, q % w, q / w) {
                assert(tile_visited(dest_x as int, dest_y as int, w, q, 32, 0));
            }
        }
        assert(canvas.pixels@ =~= apply_tile(
            old(canvas).pixels@,
            old(canvas).width as int,
            old(canvas).height as int,
            colors@,
            dest_x as int,
            dest_y as int,
        ));
    }
}

/// Index of the first colour of mask row `y`.
pub open spec fn row_start(y: int) -> int {
    if y <= 16 { 2 * y * y } else { -2 * y * y + 128 * y - 1024 }
}

/// A lemma: consecutive rows of the mask take consecutive runs of colours,
/// which end exactly at the last of the 1024.
pub proof fn lemma_row_start_step(y: int)
    requires
        0 <= y < 32,
    ensures
        row_start(y) + mask_width(y) == row_start(y + 1),
        row_start(y + 1) <= 1024,
        row_start(y) >= 0,
{
    if y < 16 {
        assert(2 * (y + 1) * (y + 1) == 2 * y * y + 4 * y + 2) by (nonlinear_arith);
        assert(2 * y * y >= 0) by (nonlinear_arith);
        assert(2 * (y + 1) * (y + 1) <= 512) by (nonlinear_arith)
            requires y < 16, y >= 0;
    } else {
        assert(-2 * (y + 1) * (y + 1) + 128 * (y + 1) - 1024 == -2 * y * y + 128 * y - 1024 + 126 - 4 * y) by (nonlinear_arith);
        assert(-2 * (y + 1) * (y + 1) + 128 * (y + 1) - 1024 <= 1024) by (nonlinear_arith)
            requires y >= 16, y < 32;
        if y == 16 {
            assert(2 * y * y == 512);
            assert(-2 * y * y + 128 * y - 1024 == 512);
        } else {
            assert(-2 * y * y + 128 * y - 1024 >= 0) by (nonlinear_arith)
                requires y > 16, y < 32;
        }
    }
}

/// Tiles per row of a tileset atlas.
pub const ATLAS_COLUMNS: usize = 10;

/// The pixels after the first `n` tiles are laid out ten to a row, each in its 62 by 32 cell.
pub open spec fn atlas_upto(px: Seq<Pixel>, cw: int, ch: int, tiles: Seq<Tile>, n: nat) -> Seq<Pixel>
    decreases n,
{
    if n == 0 {
        px
    } else {
        let t = n - 1;
        apply_tile(atlas_upto(px, cw, ch, tiles, (n - 1) as nat), cw, ch, tiles[t].colors@, (t % 10) * 62, (t / 10) * 32)
    }
}

/// Lays a tileset out as an atlas: ten tiles to a row, each drawn through the
/// diamond mask into its 62 by 32 cell, on a canvas with as many rows as needed.
pub fn plot_tileset_map(tiles: &Vec<Tile>) -> (r: Canvas)
    requires
        forall|i: int| 0 <= i < tiles@.len() ==> (#[trigger] tiles@[i]).wf(),
        32 * ((tiles@.len() + 9) / 10) <= i32::MAX,
        620 * (32 * ((tiles@.len() + 9) / 10)) <= usize::MAX,
    ensures
        r.wf(),
        r.width == 620,
        r.height == 32 * ((tiles@.len() + 9) / 10),
        r.pixels@ == atlas_upto(
            Seq::new((620 * 32 * ((tiles@.len() + 9) / 10)) as nat, |i: int| Pixel { r: 0, g: 0, b: 0, a: 0 }),
            620,
            32 * ((tiles@.len() + 9) / 10) as int,
            tiles@,
            tiles@.len(),
        ),
{
    let rows: u32 = ((tiles.len() + 9) / ATLAS_COLUMNS) as u32;
    let width: u32 = TILE_WIDTH * ATLAS_COLUMNS as u32;
    let height: u32 = TILE_HEIGHT * rows;
    assert(620 * (32 * ((tiles@.len() + 9) / 10)) == 620 * 32 * ((tiles@.len() + 9) / 10)) by (nonlinear_arith);
    let mut bitmap = Canvas::new(width, height);
    let ghost blank = bitmap.pixels@;
    proof {
        assert(blank =~= Seq::new((620 * 32 * ((tiles@.len() + 9) / 10)) as nat, |i: int| Pixel { r: 0, g: 0, b: 0, a: 0 }));
    }
    let mut t: usize = 0;
    while t < tiles.len()
        invariant
            forall|i: int| 0 <= i < tiles@.len() ==> (#[trigger] tiles@[i]).wf(),
            32 * ((tiles@.len() + 9) / 10) <= i32::MAX,
            bitmap.wf(),
            bitmap.width == 620,
            bitmap.height == height,
            height == 32 * ((tiles@.len() + 9) / 10),
            t <= tiles@.len(),
            bitmap.pixels@ == atlas_upto(blank, 620, height as int, tiles@, t as nat),
        decreases tiles@.len() - t,
    {
        proof {
            assert((t / 10) * 32 <= 32 * ((tiles@.len() + 9) / 10)) by (nonlinear_arith)
                requires t < tiles@.len();
        }
        let dest_x: i32 = ((t % ATLAS_COLUMNS) * 62) as i32;
        let dest_y: i32 = ((t / ATLAS_COLUMNS) * 32) as i32;
        plot_tile(&mut bitmap, &tiles[t].colors, dest_x, dest_y);
        t = t + 1;
    }
    bitmap
}

} // verus!
