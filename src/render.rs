use vstd::prelude::*;
use crate::bytes::{le_u16, read_u16};
use crate::canvas::{pixel_index, Canvas, Pixel};
use crate::color::{tinted, mix_color, rgb16_565_produce_color, rgb565_blue, rgb565_green, rgb565_red, Color};
use crate::decode::{MapData, TiledObjectInfo};
use crate::error::MapError;
use crate::geometry::{convert_map_coords_to_image_coords, lemma_model_bounds, project_x, project_y, MapModel};
use crate::order::{in_paint_order, order_by_anchor, seq_increasing, ItemKind, RenderItem};
use crate::sprite::{ImageInfo, SequenceInfo};
use crate::tile::{apply_tile, plot_tile, Tile};

verus! {

/// Opacity, out of 255, of the highlight laid over ground tiles that carry an event.
pub const EVENT_TINT_ALPHA: u8 = 50;

/// Every tile of the set has its 1024 colours.
pub open spec fn tileset_wf(tiles: Seq<Tile>) -> bool {
    forall|i: int| 0 <= i < tiles.len() ==> (#[trigger] tiles[i]).wf()
}

/// Pixel position at which the tile of cell `(x, y)` is drawn.
pub open spec fn cell_position(m: MapModel, occlusion: bool, x: int, y: int) -> (int, int) {
    let d = m.tiled_map_width + m.tiled_map_height;
    if occlusion {
        (project_x(x, y) - m.map_non_occluded_start_x, project_y(x, y, d as int) - m.map_non_occluded_start_y)
    } else {
        (project_x(x, y), project_y(x, y, d as int))
    }
}

/// Projects a cell of the tiled grid, shifted into the cropped canvas when `occlusion` is set.
fn cell_to_canvas(model: &MapModel, occlusion: bool, x: i32, y: i32) -> (r: (i32, i32))
    requires
        model.wf(),
        0 <= x < model.tiled_map_width,
        0 <= y < model.tiled_map_height,
    ensures
        r.0 == cell_position(*model, occlusion, x as int, y as int).0,
        r.1 == cell_position(*model, occlusion, x as int, y as int).1,
{
    proof {
        lemma_model_bounds(*model);
    }
    let diagonal = model.tiled_map_width + model.tiled_map_height;
    let (px, py) = convert_map_coords_to_image_coords(x, y, diagonal);
    if occlusion {
        (px - model.map_non_occluded_start_x, py - model.map_non_occluded_start_y)
    } else {
        (px, py)
    }
}

/// Highlight toward which ground tiles that carry an event are tinted.
pub open spec fn event_highlight() -> Color {
    Color { r: 200, g: 255, b: 10 }
}

/// A tile's colours tinted toward the event highlight.
pub open spec fn event_tinted(colors: Seq<Color>) -> Seq<Color> {
    Seq::new(colors.len(), |k: int| tinted(colors[k], event_highlight(), EVENT_TINT_ALPHA))
}

/// First column of diagonal `diff` (cells with `y - x == diff`).
pub open spec fn diag_start(diff: int) -> int {
    if diff < 0 { -diff } else { 0 }
}

/// Last column of diagonal `diff` of a `width` by `height` grid.
pub open spec fn diag_end(width: int, height: int, diff: int) -> int {
    if width - 1 < height - 1 - diff { width - 1 } else { height - 1 - diff }
}

/// The pixels after drawing cell `(x, y)` of the ground layer (`ground`) or of the
/// roof layer. A ground cell takes its tile by the absolute value of its id and
/// is tinted when its event id is positive; a roof cell is drawn when its id is
/// positive. Ids that the tile set does not hold draw nothing.
pub open spec fn pass_cell(data: &MapData, tiles: Seq<Tile>, occlusion: bool, ground: bool, px: Seq<Pixel>, cw: int, ch: int, x: int, y: int) -> Seq<Pixel> {
    let i = y * data.model.tiled_map_width + x;
    let pos = cell_position(data.model, occlusion, x, y);
    if ground {
        let id = data.gtl_tiles@[i];
        let aid = if id < 0 { -id } else { id as int };
        if aid < tiles.len() {
            let colors = if data.events@[i].event_id > 0 { event_tinted(tiles[aid].colors@) } else { tiles[aid].colors@ };
            apply_tile(px, cw, ch, colors, pos.0, pos.1)
        } else {
            px
        }
    } else {
        let id = data.btl_tiles@[i];
        if id > 0 && id < tiles.len() {
            apply_tile(px, cw, ch, tiles[id as int].colors@, pos.0, pos.1)
        } else {
            px
        }
    }
}

/// The pixels after a pass has drawn, from `px0`, every diagonal before `diff`
/// and the cells of diagonal `diff` before column `x`. Diagonals run from
/// `-(width - 1)` upward, each from its first column to its last.
pub open spec fn pass_upto(data: &MapData, tiles: Seq<Tile>, occlusion: bool, ground: bool, px0: Seq<Pixel>, cw: int, ch: int, diff: int, x: int) -> Seq<Pixel>
    decreases diff + data.model.tiled_map_width, x - diag_start(diff),
{
    let w = data.model.tiled_map_width as int;
    let h = data.model.tiled_map_height as int;
    if diff < -(w - 1) {
        px0
    } else if x > diag_start(diff) {
        pass_cell(data, tiles, occlusion, ground, pass_upto(data, tiles, occlusion, ground, px0, cw, ch, diff, x - 1), cw, ch, x - 1, x - 1 + diff)
    } else if diff > -(w - 1) {
        pass_upto(data, tiles, occlusion, ground, px0, cw, ch, diff - 1, diag_end(w, h, diff - 1) + 1)
    } else {
        px0
    }
}

/// The pixels after a whole pass over the grid.
pub open spec fn pass_result(data: &MapData, tiles: Seq<Tile>, occlusion: bool, ground: bool, px0: Seq<Pixel>, cw: int, ch: int) -> Seq<Pixel> {
    let h = data.model.tiled_map_height as int;
    pass_upto(data, tiles, occlusion, ground, px0, cw, ch, h, diag_start(h))
}

/// Ground pass: walks the grid diagonal by diagonal and draws every ground
/// tile, tinted toward the highlight where the cell carries an event. Tile ids
/// that the tile set does not hold are skipped.
pub fn plot_base(canvas: &mut Canvas, data: &MapData, occlusion: bool, gtl_tileset: &Vec<Tile>)
    requires
        old(canvas).wf(),
        data.wf(),
        tileset_wf(gtl_tileset@),
    ensures
        final(canvas).wf(),
        final(canvas).width == old(canvas).width,
        final(canvas).height == old(canvas).height,
        final(canvas).pixels@ == pass_result(
            data,
            gtl_tileset@,
            occlusion,
            true,
            old(canvas).pixels@,
            old(canvas).width as int,
            old(canvas).height as int,
        ),
{
    let model = &data.model;
    let width = model.tiled_map_width;
    let height = model.tiled_map_height;
    proof {
        lemma_model_bounds(*model);
    }
    let n_cells = data.gtl_tiles.len();
    let mut diff: i32 = -(width - 1);
    while diff < height
        invariant
            canvas.wf(),
            canvas.width == old(canvas).width,
            canvas.height == old(canvas).height,
            data.wf(),
            tileset_wf(gtl_tileset@),
            width == data.model.tiled_map_width,
            height == data.model.tiled_map_height,
            24 <= width,
            24 <= height,
            width + height <= 67108848,
            n_cells == width * height,
            -(width - 1) <= diff <= height,
            canvas.pixels@ == pass_upto(data, gtl_tileset@, occlusion, true, old(canvas).pixels@, canvas.width as int, canvas.height as int, diff as int, diag_start(diff as int)),
        decreases height - diff,
    {
        let start_x: i32 = if diff < 0 { -diff } else { 0 };
        let end_x: i32 = if width - 1 < height - 1 - diff { width - 1 } else { height - 1 - diff };
        let mut x: i32 = start_x;
        while x <= end_x
            invariant
                canvas.wf(),
                canvas.width == old(canvas).width,
                canvas.height == old(canvas).height,
                data.wf(),
                tileset_wf(gtl_tileset@),
                width == data.model.tiled_map_width,
                height == data.model.tiled_map_height,
                24 <= width,
                24 <= height,
                width + height <= 67108848,
                n_cells == width * height,
                -(width - 1) <= diff < height,
                start_x >= 0,
                start_x >= -diff,
                end_x <= width - 1,
                end_x <= height - 1 - diff,
                start_x <= x,
                start_x == diag_start(diff as int),
                end_x == diag_end(width as int, height as int, diff as int),
                x <= end_x + 1,
                canvas.pixels@ == pass_upto(data, gtl_tileset@, occlusion, true, old(canvas).pixels@, canvas.width as int, canvas.height as int, diff as int, x as int),
            decreases end_x - x + 1,
        {
            let y = x + diff;
            let i = cell_index(width, height, x, y);
            let gtl_tile_id = data.gtl_tiles[i];
            let id: usize = if gtl_tile_id < 0 { (-(gtl_tile_id as i64)) as usize } else { gtl_tile_id as usize };
            let ghost before = canvas.pixels@;
            if id < gtl_tileset.len() {
                let (start_x, start_y) = cell_to_canvas(&data.model, occlusion, x, y);
                let tile = &gtl_tileset[id];
                if data.events[i].event_id > 0 {
                    let tinted = mix_color(&tile.colors, Color { r: 200, g: 255, b: 10 }, EVENT_TINT_ALPHA);
                    proof {
                        assert(tinted@ =~= event_tinted(tile.colors@));
                    }
                    plot_tile(canvas, &tinted, start_x, start_y);
                } else {
                    plot_tile(canvas, &tile.colors, start_x, start_y);
                }
            }
            proof {
                assert(canvas.pixels@ == pass_cell(data, gtl_tileset@, occlusion, true, before, canvas.width as int, canvas.height as int, x as int, y as int));
            }
            x = x + 1;
        }
        proof {
            if diff + 1 > -(width - 1) {
                assert(pass_upto(data, gtl_tileset@, occlusion, true, old(canvas).pixels@, canvas.width as int, canvas.height as int, diff + 1, diag_start(diff + 1))
                    == pass_upto(data, gtl_tileset@, occlusion, true, old(canvas).pixels@, canvas.width as int, canvas.height as int, diff as int, end_x + 1));
            }
        }
        diff = diff + 1;
    }
}

/// Index of cell `(x, y)` in the row-major grid.
pub fn cell_index(width: i32, height: i32, x: i32, y: i32) -> (i: usize)
    requires
        0 <= x < width,
        0 <= y < height,
        width * height <= usize::MAX,
    ensures
        i == y * width + x,
        i < width * height,
{
    proof {
        crate::canvas::lemma_pixel_index_in_bounds(width as int, height as int, x as int, y as int);
        assert(0 <= y * width <= y * width + x) by (nonlinear_arith)
            requires 0 <= x, 0 <= y, 0 <= width;
    }
    y as usize * width as usize + x as usize
}

/// Roof pass: draws, diagonal by diagonal, every cell whose roof id is
/// positive. Tile ids that the tile set does not hold are skipped.
pub fn plot_roofs(canvas: &mut Canvas, data: &MapData, occlusion: bool, btl_tileset: &Vec<Tile>)
    requires
        old(canvas).wf(),
        data.wf(),
        tileset_wf(btl_tileset@),
    ensures
        final(canvas).wf(),
        final(canvas).width == old(canvas).width,
        final(canvas).height == old(canvas).height,
        final(canvas).pixels@ == pass_result(
            data,
            btl_tileset@,
            occlusion,
            false,
            old(canvas).pixels@,
            old(canvas).width as int,
            old(canvas).height as int,
        ),
{
    let model = &data.model;
    let width = model.tiled_map_width;
    let height = model.tiled_map_height;
    proof {
        lemma_model_bounds(*model);
    }
    let n_cells = data.gtl_tiles.len();
    let mut diff: i32 = -(width - 1);
    while diff < height
        invariant
            canvas.wf(),
            canvas.width == old(canvas).width,
            canvas.height == old(canvas).height,
            data.wf(),
            tileset_wf(btl_tileset@),
            width == data.model.tiled_map_width,
            height == data.model.tiled_map_height,
            24 <= width,
            24 <= height,
            width + height <= 67108848,
            n_cells == width * height,
            -(width - 1) <= diff <= height,
            canvas.pixels@ == pass_upto(data, btl_tileset@, occlusion, false, old(canvas).pixels@, canvas.width as int, canvas.height as int, diff as int, diag_start(diff as int)),
        decreases height - diff,
    {
        let start_x: i32 = if diff < 0 { -diff } else { 0 };
        let end_x: i32 = if width - 1 < height - 1 - diff { width - 1 } else { height - 1 - diff };
        let mut x: i32 = start_x;
        while x <= end_x
            invariant
                canvas.wf(),
                canvas.width == old(canvas).width,
                canvas.height == old(canvas).height,
                data.wf(),
                tileset_wf(btl_tileset@),
                width == data.model.tiled_map_width,
                height == data.model.tiled_map_height,
                24 <= width,
                24 <= height,
                width + height <= 67108848,
                n_cells == width * height,
                -(width - 1) <= diff < height,
                start_x >= 0,
                start_x >= -diff,
                end_x <= width - 1,
                end_x <= height - 1 - diff,
                start_x <= x,
                start_x == diag_start(diff as int),
                end_x == diag_end(width as int, height as int, diff as int),
                x <= end_x + 1,
                canvas.pixels@ == pass_upto(data, btl_tileset@, occlusion, false, old(canvas).pixels@, canvas.width as int, canvas.height as int, diff as int, x as int),
            decreases end_x - x + 1,
        {
            let y = x + diff;
            let i = cell_index(width, height, x, y);
            let btl_tile_id = data.btl_tiles[i];
            let ghost before = canvas.pixels@;
            if btl_tile_id > 0 && (btl_tile_id as usize) < btl_tileset.len() {
                let (start_x, start_y) = cell_to_canvas(&data.model, occlusion, x, y);
                plot_tile(canvas, &btl_tileset[btl_tile_id as usize].colors, start_x, start_y);
            }
            proof {
                assert(canvas.pixels@ == pass_cell(data, btl_tileset@, occlusion, false, before, canvas.width as int, canvas.height as int, x as int, y as int));
            }
            x = x + 1;
        }
        proof {
            if diff + 1 > -(width - 1) {
                assert(pass_upto(data, btl_tileset@, occlusion, false, old(canvas).pixels@, canvas.width as int, canvas.height as int, diff + 1, diag_start(diff + 1))
                    == pass_upto(data, btl_tileset@, occlusion, false, old(canvas).pixels@, canvas.width as int, canvas.height as int, diff as int, end_x + 1));
            }
        }
        diff = diff + 1;
    }
}

/// Height of the first frame of a catalog sprite, or 0 when it has no frame.
pub open spec fn first_frame_height(seq: SequenceInfo) -> int {
    if seq.frame_infos@.len() > 0 { seq.frame_infos@[0].height as int } else { 0 }
}

/// Ground anchor of a sprite placement: its Y plus the height of its first frame.
pub open spec fn sprite_anchor(data: &MapData, k: int) -> int {
    let b = data.sprite_blocks@[k];
    b.sprite_y + first_frame_height(data.internal_sprites@[b.sprite_id as int])
}

/// Ground anchor of a tiled object: its Y plus the height of its stack.
pub open spec fn object_anchor(o: TiledObjectInfo) -> int {
    o.y + o.ids@.len() * 32
}

/// `items` lists every placement, then every tiled object, with their anchors.
pub open spec fn items_of(data: &MapData, items: Seq<RenderItem>) -> bool {
    let ns = data.sprite_blocks@.len();
    let no = data.tiled_infos@.len();
    &&& items.len() == ns + no
    &&& forall|i: int| 0 <= i < items.len() ==> (#[trigger] items[i]).seq == i
    &&& forall|i: int| 0 <= i < ns ==> {
        &&& (#[trigger] items[i]).kind == ItemKind::Sprite
        &&& items[i].index == i
        &&& items[i].ground_y == sprite_anchor(data, i)
    }
    &&& forall|i: int| ns <= i < items.len() ==> {
        &&& (#[trigger] items[i]).kind == ItemKind::TiledObject
        &&& items[i].index == i - ns
        &&& items[i].ground_y == object_anchor(data.tiled_infos@[i - ns])
    }
}

/// Lists the items of the object pass, placements first, each with its ground anchor.
pub fn render_items(data: &MapData) -> (r: Vec<RenderItem>)
    requires
        data.wf(),
    ensures
        items_of(data, r@),
        seq_increasing(r@),
{
    let mut items: Vec<RenderItem> = Vec::new();
    let ns = data.sprite_blocks.len();
    let no = data.tiled_infos.len();
    let mut i: usize = 0;
    while i < ns
        invariant
            data.wf(),
            ns == data.sprite_blocks@.len(),
            i <= ns,
            items@.len() == i,
            forall|j: int| 0 <= j < i ==> (#[trigger] items@[j]).seq == j,
            forall|j: int| 0 <= j < i ==> {
                &&& (#[trigger] items@[j]).kind == ItemKind::Sprite
                &&& items@[j].index == j
                &&& items@[j].ground_y == sprite_anchor(data, j)
            },
        decreases ns - i,
    {
        let block = data.sprite_blocks[i];
        let sequence = &data.internal_sprites[block.sprite_id];
        let height: i64 = if sequence.frame_infos.len() > 0 { sequence.frame_infos[0].height as i64 } else { 0 };
        items.push(RenderItem { ground_y: block.sprite_y as i64 + height, kind: ItemKind::Sprite, index: i, seq: i });
        i = i + 1;
    }
    let mut k: usize = 0;
    while k < no
        invariant
            data.wf(),
            ns == data.sprite_blocks@.len(),
            no == data.tiled_infos@.len(),
            k <= no,
            items@.len() == ns + k,
            forall|j: int| 0 <= j < items@.len() ==> (#[trigger] items@[j]).seq == j,
            forall|j: int| 0 <= j < ns ==> {
                &&& (#[trigger] items@[j]).kind == ItemKind::Sprite
                &&& items@[j].index == j
                &&& items@[j].ground_y == sprite_anchor(data, j)
            },
            forall|j: int| ns <= j < ns + k ==> {
                &&& (#[trigger] items@[j]).kind == ItemKind::TiledObject
                &&& items@[j].index == j - ns
                &&& items@[j].ground_y == object_anchor(data.tiled_infos@[j - ns])
            },
        decreases no - k,
    {
        let info = &data.tiled_infos[k];
        let stack: u64 = info.ids.len() as u64;
        items.push(RenderItem {
            ground_y: info.y as i64 + stack as i64 * 32,
            kind: ItemKind::TiledObject,
            index: k,
            seq: ns + k,
        });
        k = k + 1;
    }
    items
}

/// The canvas keeps its size and invariant.
pub open spec fn same_frame(before: Canvas, after: Canvas) -> bool {
    after.wf() && after.width == before.width && after.height == before.height
}

/// The pixels after drawing tile `i` of a tiled object's stack.
pub open spec fn stack_cell(px: Seq<Pixel>, cw: int, ch: int, info: TiledObjectInfo, tiles: Seq<Tile>, offset_x: int, offset_y: int, i: int) -> Seq<Pixel> {
    let id = info.ids@[i];
    let aid = if id < 0 { -id } else { id as int };
    let x = info.x + offset_x;
    let y = info.y + i * 32 + offset_y;
    if aid < tiles.len() && i32::MIN <= x <= i32::MAX && i32::MIN <= y <= i32::MAX {
        apply_tile(px, cw, ch, tiles[aid].colors@, x, y)
    } else {
        px
    }
}

/// The pixels after drawing the first `n` tiles of a tiled object's stack.
pub open spec fn stack_upto(px: Seq<Pixel>, cw: int, ch: int, info: TiledObjectInfo, tiles: Seq<Tile>, offset_x: int, offset_y: int, n: nat) -> Seq<Pixel>
    decreases n,
{
    if n == 0 {
        px
    } else {
        stack_cell(stack_upto(px, cw, ch, info, tiles, offset_x, offset_y, (n - 1) as nat), cw, ch, info, tiles, offset_x, offset_y, n - 1)
    }
}

/// Draws a tiled object's stack, top to bottom, one tile height apart, its
/// first tile at the object's position shifted by `(offset_x, offset_y)`. Ids
/// are used by absolute value; those that the tile set does not hold are skipped.
pub fn plot_single_tiled_object(canvas: &mut Canvas, tiled_info: &TiledObjectInfo, btl_tileset: &Vec<Tile>, offset_x: i32, offset_y: i32)
    requires
        old(canvas).wf(),
        tileset_wf(btl_tileset@),
        tiled_info.ids@.len() <= i32::MAX,
    ensures
        same_frame(*old(canvas), *final(canvas)),
        final(canvas).pixels@ == stack_upto(
            old(canvas).pixels@,
            old(canvas).width as int,
            old(canvas).height as int,
            *tiled_info,
            btl_tileset@,
            offset_x as int,
            offset_y as int,
            tiled_info.ids@.len(),
        ),
{
    let mut i: usize = 0;
    while i < tiled_info.ids.len()
        invariant
            same_frame(*old(canvas), *canvas),
            tileset_wf(btl_tileset@),
            tiled_info.ids@.len() <= i32::MAX,
            i <= tiled_info.ids@.len(),
            canvas.pixels@ == stack_upto(
                old(canvas).pixels@,
                old(canvas).width as int,
                old(canvas).height as int,
                *tiled_info,
                btl_tileset@,
                offset_x as int,
                offset_y as int,
                i as nat,
            ),
        decreases tiled_info.ids@.len() - i,
    {
        let btl_id = tiled_info.ids[i];
        let id: usize = if btl_id < 0 { (-(btl_id as i32)) as usize } else { btl_id as usize };
        let x: i64 = tiled_info.x as i64 + offset_x as i64;
        let y: i64 = tiled_info.y as i64 + i as i64 * 32 + offset_y as i64;
        if id < btl_tileset.len() && i32::MIN as i64 <= x && x <= i32::MAX as i64 && i32::MIN as i64 <= y
            && y <= i32::MAX as i64 {
            plot_tile(canvas, &btl_tileset[id].colors, x as i32, y as i32);
        }
        i = i + 1;
    }
}

/// The frame at `(dest_x, dest_y)` lies wholly inside a canvas of the given size.
pub open spec fn frame_fits(width: int, height: int, sprite: ImageInfo, dest_x: int, dest_y: int) -> bool {
    dest_x >= 0 && dest_y >= 0 && sprite.width >= 0 && sprite.height >= 0 && dest_x + sprite.width <= width
        && dest_y + sprite.height <= height
}

/// Canvas pixel `q`, previously `before`, once a frame has been copied to
/// `(dest_x, dest_y)` of a canvas of the given width; `visited` says whether the
/// copy has reached that pixel. Pixel value 0 is transparent.
pub open spec fn sprite_pixel(file: Seq<u8>, sprite: ImageInfo, width: int, q: int, dest_x: int, dest_y: int, before: Pixel, visited: bool) -> Pixel {
    let fx = q % width - dest_x;
    let fy = q / width - dest_y;
    let v = le_u16(file, sprite.image_start_position + 2 * (fy * sprite.width + fx)) as u16;
    if visited && 0 <= fx < sprite.width && 0 <= fy < sprite.height && v > 0 {
        Pixel { r: rgb565_red(v) as u8, g: rgb565_green(v) as u8, b: rgb565_blue(v) as u8, a: 255 }
    } else {
        before
    }
}

/// Whether the copy has reached canvas pixel `q` after `y` full rows and `x` pixels of the next.
pub open spec fn frame_visited(width: int, q: int, dest_x: int, dest_y: int, y: int, x: int) -> bool {
    let fy = q / width - dest_y;
    fy < y || (fy == y && q % width - dest_x < x)
}

/// Copies a sprite frame's 5-6-5 pixels, read from the map file where the
/// frame records them, onto the canvas at `(dest_x, dest_y)`. Pixel value 0 is
/// transparent; a frame that does not fit wholly on the canvas is not drawn.
pub fn plot_sprite_on_bitmap(canvas: &mut Canvas, file: &[u8], sprite: &ImageInfo, dest_x: i64, dest_y: i64) -> (r: Result<(), MapError>)
    requires
        old(canvas).wf(),
    ensures
        same_frame(*old(canvas), *final(canvas)),
        !frame_fits(old(canvas).width as int, old(canvas).height as int, *sprite, dest_x as int, dest_y as int)
            ==> final(canvas).pixels@ == old(canvas).pixels@ && r is Ok,
        frame_fits(old(canvas).width as int, old(canvas).height as int, *sprite, dest_x as int, dest_y as int) ==> (
            (r is Ok) == (sprite.width * sprite.height == 0 || sprite.image_start_position + 2 * sprite.width * sprite.height
                <= file@.len())),
        r is Ok ==> forall|q: int| 0 <= q < old(canvas).pixels@.len() ==> #[trigger] final(canvas).pixels@[q] == sprite_pixel(
            file@,
            *sprite,
            old(canvas).width as int,
            q,
            dest_x as int,
            dest_y as int,
            old(canvas).pixels@[q],
            frame_fits(old(canvas).width as int, old(canvas).height as int, *sprite, dest_x as int, dest_y as int),
        ),
        r is Err ==> r->Err_0 == MapError::Io,
{
    if !(dest_x >= 0 && dest_y >= 0 && sprite.width >= 0 && sprite.height >= 0
        && dest_x <= canvas.width as i64 && dest_y <= canvas.height as i64
        && dest_x + sprite.width as i64 <= canvas.width as i64 && dest_y + sprite.height as i64 <= canvas.height as i64) {
        return Ok(());
    }
    let ghost w = canvas.width as int;
    let ghost start = sprite.image_start_position as int;
    let ghost fw = sprite.width as int;
    let mut pos: u64 = sprite.image_start_position;
    let mut y: i32 = 0;
    while y < sprite.height
        invariant
            same_frame(*old(canvas), *canvas),
            w == canvas.width,
            start == sprite.image_start_position,
            fw == sprite.width,
            canvas.pixels@.len() == old(canvas).pixels@.len(),
            0 <= y <= sprite.height,
            dest_x >= 0,
            dest_y >= 0,
            sprite.width >= 0,
            dest_x + sprite.width <= canvas.width,
            dest_y + sprite.height <= canvas.height,
            pos == start + 2 * (y * fw),
            y > 0 && fw > 0 ==> pos <= file@.len(),
            forall|q: int| 0 <= q < old(canvas).pixels@.len() ==> #[trigger] canvas.pixels@[q] == sprite_pixel(
                file@, *sprite, w, q, dest_x as int, dest_y as int, old(canvas).pixels@[q],
                frame_visited(w, q, dest_x as int, dest_y as int, y as int, 0)),
        decreases sprite.height - y,
    {
        let mut x: i32 = 0;
        while x < sprite.width
            invariant
                same_frame(*old(canvas), *canvas),
                w == canvas.width,
                start == sprite.image_start_position,
                fw == sprite.width,
                canvas.pixels@.len() == old(canvas).pixels@.len(),
                0 <= y < sprite.height,
                0 <= x <= sprite.width,
                dest_x >= 0,
                dest_y >= 0,
                dest_x + sprite.width <= canvas.width,
                dest_y + sprite.height <= canvas.height,
                pos == start + 2 * (y * fw + x),
                (y > 0 && fw > 0) || x > 0 ==> pos <= file@.len(),
                forall|q: int| 0 <= q < old(canvas).pixels@.len() ==> #[trigger] canvas.pixels@[q] == sprite_pixel(
                    file@, *sprite, w, q, dest_x as int, dest_y as int, old(canvas).pixels@[q],
                    frame_visited(w, q, dest_x as int, dest_y as int, y as int, x as int)),
            decreases sprite.width - x,
        {
            let ghost p0 = pos as int;
            let pixel = match read_u16(file, &mut pos) {
                Ok(v) => v,
                Err(e) => {
                    proof {
                        assert((y + 1) * fw >= y * fw + x + 1) by (nonlinear_arith)
                            requires x < fw, y >= 0;
                        assert(sprite.height * fw >= (y + 1) * fw) by (nonlinear_arith)
                            requires y + 1 <= sprite.height, fw >= 0;
                        assert(2 * sprite.width * sprite.height == 2 * (sprite.height * fw)) by (nonlinear_arith)
                            requires fw == sprite.width;
                    }
                    return Err(e);
                },
            };
            let final_x = (dest_x + x as i64) as u32;
            let final_y = (dest_y + y as i64) as u32;
            let ghost before = canvas.pixels@;
            let ghost t = pixel_index(w, final_x as int, final_y as int);
            proof {
                crate::canvas::lemma_pixel_index_in_bounds(w, canvas.height as int, final_x as int, final_y as int);
                vstd::arithmetic::div_mod::lemma_fundamental_div_mod_converse(t, w, final_y as int, final_x as int);
                assert(p0 == start + 2 * (y * fw + x));
            }
            if pixel > 0 {
                let color = rgb16_565_produce_color(pixel);
                canvas.put_pixel(final_x, final_y, Pixel { r: color.r, g: color.g, b: color.b, a: 255 });
            }
            proof {
                assert forall|q: int| 0 <= q < old(canvas).pixels@.len() implies #[trigger] canvas.pixels@[q] == sprite_pixel(
                    file@, *sprite, w, q, dest_x as int, dest_y as int, old(canvas).pixels@[q],
                    frame_visited(w, q, dest_x as int, dest_y as int, y as int, x as int + 1)) by {
                    if q != t {
                        assert(canvas.pixels@[q] == before[q]);
                        vstd::arithmetic::div_mod::lemma_fundamental_div_mod(q, w);
                        if q / w == final_y as int && q % w == final_x as int {
                            assert(w * (q / w) == (q / w) * w) by (nonlinear_arith);
                            assert(q == t);
                        }
                    }
                }
            }
            x = x + 1;
        }
        proof {
            assert((y + 1) * fw == y * fw + fw) by (nonlinear_arith);
            assert forall|q: int| 0 <= q < old(canvas).pixels@.len() implies #[trigger] canvas.pixels@[q] == sprite_pixel(
                file@, *sprite, w, q, dest_x as int, dest_y as int, old(canvas).pixels@[q],
                frame_visited(w, q, dest_x as int, dest_y as int, y as int + 1, 0)) by {
                if q / w - dest_y == y as int && 0 <= q % w - dest_x < fw {
                    assert(frame_visited(w, q, dest_x as int, dest_y as int, y as int, x as int));
                }
            }
        }
        y = y + 1;
    }
    proof {
        assert(2 * sprite.width * sprite.height == 2 * (sprite.height * fw)) by (nonlinear_arith)
            requires fw == sprite.width;
        assert(sprite.width * sprite.height == sprite.height * fw) by (nonlinear_arith)
            requires fw == sprite.width;
        if fw == 0 || sprite.height == 0 {
            assert(sprite.height * fw == 0) by (nonlinear_arith)
                requires fw == 0 || sprite.height == 0;
        }
        assert forall|q: int| 0 <= q < old(canvas).pixels@.len() implies #[trigger] canvas.pixels@[q] == sprite_pixel(
            file@, *sprite, w, q, dest_x as int, dest_y as int, old(canvas).pixels@[q], true) by {
            if 0 <= q / w - dest_y < sprite.height && 0 <= q % w - dest_x < fw {
                assert(frame_visited(w, q, dest_x as int, dest_y as int, sprite.height as int, 0));
            }
        }
    }
    Ok(())
}

/// The pixels after drawing placement `k`: the first frame of its sprite, when
/// the sprite has one, at its position shifted by `(offset_x, offset_y)`.
pub open spec fn apply_sprite(px: Seq<Pixel>, cw: int, ch: int, file: Seq<u8>, data: &MapData, k: int, offset_x: int, offset_y: int) -> Seq<Pixel> {
    let b = data.sprite_blocks@[k];
    let seq = data.internal_sprites@[b.sprite_id as int];
    if seq.frame_infos@.len() == 0 {
        px
    } else {
        let frame = seq.frame_infos@[0];
        let dx = b.sprite_x + offset_x;
        let dy = b.sprite_y + offset_y;
        Seq::new(px.len(), |q: int| sprite_pixel(file, frame, cw, q, dx, dy, px[q], frame_fits(cw, ch, frame, dx, dy)))
    }
}

/// The pixels of placement `k` can be read: its sprite has no frame, its first
/// frame does not fit the canvas or is empty, or the frame's pixels lie inside the file.
pub open spec fn sprite_readable(file: Seq<u8>, data: &MapData, k: int, cw: int, ch: int, offset_x: int, offset_y: int) -> bool {
    let b = data.sprite_blocks@[k];
    let seq = data.internal_sprites@[b.sprite_id as int];
    let f = seq.frame_infos@[0];
    seq.frame_infos@.len() == 0 || !frame_fits(cw, ch, f, b.sprite_x + offset_x, b.sprite_y + offset_y)
        || f.width * f.height == 0 || f.image_start_position + 2 * f.width * f.height <= file.len()
}

/// Every placement's pixels can be read.
pub open spec fn sprites_readable(file: Seq<u8>, data: &MapData, cw: int, ch: int, offset_x: int, offset_y: int) -> bool {
    forall|k: int| 0 <= k < data.sprite_blocks@.len() ==> #[trigger] sprite_readable(file, data, k, cw, ch, offset_x, offset_y)
}

/// Draws the first frame of a placed sprite at its position shifted by `(offset_x, offset_y)`.
pub fn plot_single_sprite(canvas: &mut Canvas, file: &[u8], data: &MapData, k: usize, offset_x: i32, offset_y: i32) -> (r: Result<(), MapError>)
    requires
        old(canvas).wf(),
        data.wf(),
        k < data.sprite_blocks@.len(),
    ensures
        same_frame(*old(canvas), *final(canvas)),
        r is Ok ==> final(canvas).pixels@ == apply_sprite(
            old(canvas).pixels@,
            old(canvas).width as int,
            old(canvas).height as int,
            file@,
            data,
            k as int,
            offset_x as int,
            offset_y as int,
        ),
        (r is Ok) == sprite_readable(file@, data, k as int, old(canvas).width as int, old(canvas).height as int,
            offset_x as int, offset_y as int),
        r is Err ==> r->Err_0 == MapError::Io,
{
    let sprite_block = &data.sprite_blocks[k];
    let internal_sprites = &data.internal_sprites;
    let sequence = &internal_sprites[sprite_block.sprite_id];
    if sequence.frame_infos.len() == 0 {
        return Ok(());
    }
    let sprite = &sequence.frame_infos[0];
    let dest_x: i64 = sprite_block.sprite_x as i64 + offset_x as i64;
    let dest_y: i64 = sprite_block.sprite_y as i64 + offset_y as i64;
    let r = plot_sprite_on_bitmap(canvas, file, sprite, dest_x, dest_y);
    proof {
        if r is Ok {
            assert(canvas.pixels@ =~= apply_sprite(
                old(canvas).pixels@,
                old(canvas).width as int,
                old(canvas).height as int,
                file@,
                data,
                k as int,
                offset_x as int,
                offset_y as int,
            ));
        }
    }
    r
}

/// `ord` is an order of the object pass for `data`: every placement and tiled
/// object once, in paint order.
pub open spec fn is_render_order(data: &MapData, ord: Seq<RenderItem>) -> bool {
    &&& in_paint_order(ord)
    &&& exists|items: Seq<RenderItem>| #[trigger] items_of(data, items) && ord.len() == items.len() && ord.to_set() == items.to_set()
}

/// The pixels after drawing one item of the object pass.
pub open spec fn item_cell(px: Seq<Pixel>, cw: int, ch: int, file: Seq<u8>, data: &MapData, tiles: Seq<Tile>, item: RenderItem, offset_x: int, offset_y: int) -> Seq<Pixel> {
    match item.kind {
        ItemKind::Sprite => apply_sprite(px, cw, ch, file, data, item.index as int, offset_x, offset_y),
        ItemKind::TiledObject => {
            let info = data.tiled_infos@[item.index as int];
            stack_upto(px, cw, ch, info, tiles, offset_x, offset_y, info.ids@.len())
        },
    }
}

/// The pixels after drawing the first `n` items of `ord`.
pub open spec fn objects_upto(px: Seq<Pixel>, cw: int, ch: int, file: Seq<u8>, data: &MapData, tiles: Seq<Tile>, ord: Seq<RenderItem>, offset_x: int, offset_y: int, n: nat) -> Seq<Pixel>
    decreases n,
{
    if n == 0 {
        px
    } else {
        item_cell(objects_upto(px, cw, ch, file, data, tiles, ord, offset_x, offset_y, (n - 1) as nat), cw, ch, file, data, tiles, ord[n - 1], offset_x, offset_y)
    }
}

/// The order of the object pass: every placement and tiled object, by
/// ascending ground anchor, equal anchors in list order (placements first).
pub fn render_order(data: &MapData) -> (r: Vec<RenderItem>)
    requires
        data.wf(),
    ensures
        is_render_order(data, r@),
{
    let items = render_items(data);
    let ordered = order_by_anchor(&items);
    proof {
        assert(items_of(data, items@));
    }
    ordered
}

/// Object pass: draws every placed sprite and tiled object in ascending order
/// of ground anchor, so that nearer items cover farther ones.
pub fn plot_objects(canvas: &mut Canvas, file: &[u8], data: &MapData, btl_tileset: &Vec<Tile>, offset_x: i32, offset_y: i32) -> (r: Result<(), MapError>)
    requires
        old(canvas).wf(),
        data.wf(),
        tileset_wf(btl_tileset@),
    ensures
        same_frame(*old(canvas), *final(canvas)),
        r is Ok ==> exists|ord: Seq<RenderItem>| #[trigger] is_render_order(data, ord) && final(canvas).pixels@ == objects_upto(
            old(canvas).pixels@,
            old(canvas).width as int,
            old(canvas).height as int,
            file@,
            data,
            btl_tileset@,
            ord,
            offset_x as int,
            offset_y as int,
            ord.len(),
        ),
        (r is Ok) == sprites_readable(file@, data, old(canvas).width as int, old(canvas).height as int,
            offset_x as int, offset_y as int),
        r is Err ==> r->Err_0 == MapError::Io,
{
    let ghost cw = canvas.width as int;
    let ghost ch = canvas.height as int;
    let ordered = render_order(data);
    let ghost ord = ordered@;
    let ghost items = choose|items: Seq<RenderItem>| #[trigger] items_of(data, items) && ord.len() == items.len() && ord.to_set() == items.to_set();
    let mut i: usize = 0;
    while i < ordered.len()
        invariant
            same_frame(*old(canvas), *canvas),
            data.wf(),
            tileset_wf(btl_tileset@),
            ord == ordered@,
            items_of(data, items),
            ordered@.to_set() == items.to_set(),
            i <= ordered@.len(),
            cw == old(canvas).width,
            ch == old(canvas).height,
            forall|j: int| 0 <= j < i && (#[trigger] ordered@[j]).kind == ItemKind::Sprite
                ==> sprite_readable(file@, data, ordered@[j].index as int, cw, ch, offset_x as int, offset_y as int),
            canvas.pixels@ == objects_upto(
                old(canvas).pixels@,
                old(canvas).width as int,
                old(canvas).height as int,
                file@,
                data,
                btl_tileset@,
                ord,
                offset_x as int,
                offset_y as int,
                i as nat,
            ),
        decreases ordered@.len() - i,
    {
        let item = ordered[i];
        proof {
            assert(ordered@.to_set().contains(item));
            assert(items.to_set().contains(item));
            let w = choose|w: int| 0 <= w < items.len() && items[w] == item;
            assert(items[w] == item);
        }
        match item.kind {
            ItemKind::Sprite => {
                match plot_single_sprite(canvas, file, data, item.index, offset_x, offset_y) {
                    Ok(()) => {},
                    Err(e) => {
                        proof {
                            assert(!sprite_readable(file@, data, item.index as int, cw, ch, offset_x as int, offset_y as int));
                        }
                        return Err(e);
                    },
                }
            },
            ItemKind::TiledObject => {
                assert(data.tiled_infos@[item.index as int].ids@.len() <= i32::MAX);
                plot_single_tiled_object(canvas, &data.tiled_infos[item.index], btl_tileset, offset_x, offset_y);
            },
        }
        i = i + 1;
    }
    proof {
        assert(is_render_order(data, ord));
        assert forall|k: int| 0 <= k < data.sprite_blocks@.len() implies
            #[trigger] sprite_readable(file@, data, k, cw, ch, offset_x as int, offset_y as int) by {
            assert(items.to_set().contains(items[k]));
            assert(ordered@.to_set().contains(items[k]));
            let j = choose|j: int| 0 <= j < ordered@.len() && ordered@[j] == items[k];
            assert(ordered@[j].kind == ItemKind::Sprite);
        }
    }
    Ok(())
}

/// A canvas of `n` pixels, all `(0, 0, 0, 0)`.
pub open spec fn blank(n: int) -> Seq<Pixel> {
    Seq::new(n as nat, |i: int| Pixel { r: 0, g: 0, b: 0, a: 0 })
}

/// Renders a decoded map: ground, then objects and sprites by depth, then
/// roofs. With `occlusion` the canvas is the cropped one and the grid is
/// shifted into it; otherwise it is the full one and objects are shifted out.
pub fn render_map(file: &[u8], data: &MapData, occlusion: bool, gtl_tileset: &Vec<Tile>, btl_tileset: &Vec<Tile>) -> (r: Result<Canvas, MapError>)
    requires
        data.wf(),
        tileset_wf(gtl_tileset@),
        tileset_wf(btl_tileset@),
    ensures
        r is Ok ==> {
            let c = r->Ok_0;
            let cw = c.width as int;
            let ch = c.height as int;
            let ox = if occlusion { 0 } else { data.model.map_non_occluded_start_x as int };
            let oy = if occlusion { 0 } else { data.model.map_non_occluded_start_y as int };
            let ground = pass_result(data, gtl_tileset@, occlusion, true, blank(cw * ch), cw, ch);
            &&& c.wf()
            &&& c.width == (if occlusion { data.model.occluded_map_in_pixels_width } else { data.model.map_width_in_pixels })
            &&& c.height == (if occlusion { data.model.occluded_map_in_pixels_height } else { data.model.map_height_in_pixels })
            &&& exists|ord: Seq<RenderItem>| #[trigger] is_render_order(data, ord) && c.pixels@ == pass_result(
                data,
                btl_tileset@,
                occlusion,
                false,
                objects_upto(ground, cw, ch, file@, data, btl_tileset@, ord, ox, oy, ord.len()),
                cw,
                ch,
            )
        },
        ({
            let cw = if occlusion { data.model.occluded_map_in_pixels_width as int } else { data.model.map_width_in_pixels as int };
            let ch = if occlusion { data.model.occluded_map_in_pixels_height as int } else { data.model.map_height_in_pixels as int };
            let ox = if occlusion { 0 } else { data.model.map_non_occluded_start_x as int };
            let oy = if occlusion { 0 } else { data.model.map_non_occluded_start_y as int };
            (r is Ok) == (cw * ch <= usize::MAX && sprites_readable(file@, data, cw, ch, ox, oy))
        }),
        r is Err ==> r->Err_0 == MapError::Io || r->Err_0 == MapError::InvalidData,
{
    proof {
        lemma_model_bounds(data.model);
    }
    let image_width: u32 = if occlusion { data.model.occluded_map_in_pixels_width as u32 } else { data.model.map_width_in_pixels as u32 };
    let image_height: u32 = if occlusion { data.model.occluded_map_in_pixels_height as u32 } else { data.model.map_height_in_pixels as u32 };
    let offset_x: i32 = if !occlusion { data.model.map_non_occluded_start_x } else { 0 };
    let offset_y: i32 = if !occlusion { data.model.map_non_occluded_start_y } else { 0 };
    assert(image_width as u64 * image_height as u64 <= 2147483200 * 1073741600) by (nonlinear_arith)
        requires image_width <= 2147483200, image_height <= 1073741600;
    if image_width as u64 * image_height as u64 > usize::MAX as u64 {
        return Err(MapError::InvalidData);
    }
    let mut canvas = Canvas::new(image_width, image_height);
    let ghost cw = image_width as int;
    let ghost ch = image_height as int;
    proof {
        assert(canvas.pixels@ =~= blank(cw * ch));
    }
    plot_base(&mut canvas, data, occlusion, gtl_tileset);
    let ghost ground = canvas.pixels@;
    plot_objects(&mut canvas, file, data, btl_tileset, offset_x, offset_y)?;
    let ghost objects = canvas.pixels@;
    let ghost ord = choose|ord: Seq<RenderItem>| #[trigger] is_render_order(data, ord) && objects == objects_upto(
        ground, cw, ch, file@, data, btl_tileset@, ord, offset_x as int, offset_y as int, ord.len());
    plot_roofs(&mut canvas, data, occlusion, btl_tileset);
    proof {
        assert(is_render_order(data, ord));
    }
    Ok(canvas)
}

} // verus!
