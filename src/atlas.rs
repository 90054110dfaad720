use vstd::prelude::*;
use crate::canvas::{blend_pixel, over, pixel_index, Canvas, Pixel, TILE_HEIGHT, TILE_WIDTH};
use crate::decode::TiledObjectInfo;
use crate::error::MapError;
use crate::geometry::{convert_map_coords_to_image_coords, project_x, project_y};
use crate::order::{in_paint_order, order_by_anchor, ItemKind, RenderItem};
use crate::store::{MetadataRow, ObjectRow, TileRow};

verus! {

/// The rectangle `[x, x + w) x [y, y + h)` lies inside an image of the given size.
pub open spec fn rect_inside(width: int, height: int, x: int, y: int, w: int, h: int) -> bool {
    0 <= x && 0 <= y && x + w <= width && y + h <= height
}

/// Pixel `q` of an image of the given width lies in the rectangle `[x, x + w) x [y, y + h)`.
pub open spec fn in_rect(width: int, q: int, x: int, y: int, w: int, h: int) -> bool {
    x <= q % width < x + w && y <= q / width < y + h
}

/// The atlas pixel that lands on canvas pixel `q` when the rectangle at
/// `(src_x, src_y)` is copied to `(dest_x, dest_y)` of a canvas of the given width.
pub open spec fn atlas_source(atlas: &Canvas, width: int, q: int, src_x: int, src_y: int, dest_x: int, dest_y: int) -> Pixel {
    let ax = src_x + q % width - dest_x;
    let ay = src_y + q / width - dest_y;
    atlas.pixels@[pixel_index(atlas.width as int, ax, ay)]
}

/// Whether the copy has reached canvas pixel `q` after `py` full rows and `px` pixels of the next.
pub open spec fn rect_visited(width: int, q: int, dest_x: int, dest_y: int, py: int, px: int) -> bool {
    let ry = q / width - dest_y;
    ry < py || (ry == py && q % width - dest_x < px)
}

/// The pixels of a canvas of the given size after the atlas rectangle at
/// `(src_x, src_y)` is composited at `(dest_x, dest_y)`.
pub open spec fn apply_atlas(px: Seq<Pixel>, cw: int, ch: int, atlas: &Canvas, src_x: int, src_y: int, tile_w: int, tile_h: int, dest_x: int, dest_y: int) -> Seq<Pixel> {
    if rect_inside(cw, ch, dest_x, dest_y, tile_w, tile_h) && rect_inside(atlas.width as int, atlas.height as int, src_x, src_y, tile_w, tile_h) {
        Seq::new(px.len(), |q: int| if in_rect(cw, q, dest_x, dest_y, tile_w, tile_h) {
            over(atlas_source(atlas, cw, q, src_x, src_y, dest_x, dest_y), px[q])
        } else {
            px[q]
        })
    } else {
        px
    }
}

/// Copies a `tile_w` by `tile_h` rectangle of the atlas, from `(src_x, src_y)`,
/// onto `dest` at `(dest_x, dest_y)`, compositing each pixel over the one
/// beneath it. A rectangle that leaves either image is skipped whole.
pub fn plot_atlas_tile(dest: &mut Canvas, atlas: &Canvas, src_x: u32, src_y: u32, tile_w: u32, tile_h: u32, dest_x: i32, dest_y: i32)
    requires
        old(dest).wf(),
        atlas.wf(),
    ensures
        final(dest).wf(),
        final(dest).width == old(dest).width,
        final(dest).height == old(dest).height,
        final(dest).pixels@ == apply_atlas(
            old(dest).pixels@,
            old(dest).width as int,
            old(dest).height as int,
            atlas,
            src_x as int,
            src_y as int,
            tile_w as int,
            tile_h as int,
            dest_x as int,
            dest_y as int,
        ),
        !rect_inside(old(dest).width as int, old(dest).height as int, dest_x as int, dest_y as int, tile_w as int, tile_h as int)
            || !rect_inside(atlas.width as int, atlas.height as int, src_x as int, src_y as int, tile_w as int, tile_h as int)
            ==> final(dest).pixels@ == old(dest).pixels@,
        forall|q: int| 0 <= q < old(dest).pixels@.len() && !in_rect(old(dest).width as int, q, dest_x as int, dest_y as int, tile_w as int, tile_h as int)
            ==> #[trigger] final(dest).pixels@[q] == old(dest).pixels@[q],
        rect_inside(old(dest).width as int, old(dest).height as int, dest_x as int, dest_y as int, tile_w as int, tile_h as int)
            && rect_inside(atlas.width as int, atlas.height as int, src_x as int, src_y as int, tile_w as int, tile_h as int)
            ==> forall|q: int| 0 <= q < old(dest).pixels@.len() && in_rect(old(dest).width as int, q, dest_x as int, dest_y as int, tile_w as int, tile_h as int)
            ==> #[trigger] final(dest).pixels@[q] == over(
                atlas_source(atlas, old(dest).width as int, q, src_x as int, src_y as int, dest_x as int, dest_y as int),
                old(dest).pixels@[q],
            ),
{
    if dest_x < 0 || dest_y < 0 {
        return;
    }
    let dx = dest_x as u32;
    let dy = dest_y as u32;
    if dx as u64 + tile_w as u64 > dest.width as u64 || dy as u64 + tile_h as u64 > dest.height as u64 {
        return;
    }
    if src_x as u64 + tile_w as u64 > atlas.width as u64 || src_y as u64 + tile_h as u64 > atlas.height as u64 {
        return;
    }
    let ghost w = dest.width as int;
    let mut py: u32 = 0;
    while py < tile_h
        invariant
            dest.wf(),
            dest.pixels@.len() == old(dest).pixels@.len(),
            dest.width == old(dest).width,
            dest.height == old(dest).height,
            w == dest.width,
            atlas.wf(),
            dx == dest_x,
            dy == dest_y,
            dx + tile_w <= dest.width,
            dy + tile_h <= dest.height,
            src_x + tile_w <= atlas.width,
            src_y + tile_h <= atlas.height,
            py <= tile_h,
            forall|q: int| 0 <= q < old(dest).pixels@.len() && !in_rect(w, q, dest_x as int, dest_y as int, tile_w as int, tile_h as int)
                ==> #[trigger] dest.pixels@[q] == old(dest).pixels@[q],
            forall|q: int| 0 <= q < old(dest).pixels@.len() && in_rect(w, q, dest_x as int, dest_y as int, tile_w as int, tile_h as int)
                ==> #[trigger] dest.pixels@[q] == (if rect_visited(w, q, dest_x as int, dest_y as int, py as int, 0) {
                    over(atlas_source(atlas, w, q, src_x as int, src_y as int, dest_x as int, dest_y as int), old(dest).pixels@[q])
                } else {
                    old(dest).pixels@[q]
                }),
        decreases tile_h - py,
    {
        let mut px: u32 = 0;
        while px < tile_w
            invariant
                dest.wf(),
                dest.pixels@.len() == old(dest).pixels@.len(),
                dest.width == old(dest).width,
                dest.height == old(dest).height,
                w == dest.width,
                atlas.wf(),
                dx == dest_x,
                dy == dest_y,
                dx + tile_w <= dest.width,
                dy + tile_h <= dest.height,
                src_x + tile_w <= atlas.width,
                src_y + tile_h <= atlas.height,
                py < tile_h,
                px <= tile_w,
                forall|q: int| 0 <= q < old(dest).pixels@.len() && !in_rect(w, q, dest_x as int, dest_y as int, tile_w as int, tile_h as int)
                    ==> #[trigger] dest.pixels@[q] == old(dest).pixels@[q],
                forall|q: int| 0 <= q < old(dest).pixels@.len() && in_rect(w, q, dest_x as int, dest_y as int, tile_w as int, tile_h as int)
                    ==> #[trigger] dest.pixels@[q] == (if rect_visited(w, q, dest_x as int, dest_y as int, py as int, px as int) {
                        over(atlas_source(atlas, w, q, src_x as int, src_y as int, dest_x as int, dest_y as int), old(dest).pixels@[q])
                    } else {
                        old(dest).pixels@[q]
                    }),
            decreases tile_w - px,
        {
            let pixel = atlas.get_pixel(src_x + px, src_y + py);
            let ghost before = dest.pixels@;
            let ghost t = pixel_index(w, (dx + px) as int, (dy + py) as int);
            proof {
                crate::canvas::lemma_pixel_index_in_bounds(w, dest.height as int, (dx + px) as int, (dy + py) as int);
                vstd::arithmetic::div_mod::lemma_fundamental_div_mod_converse(t, w, (dy + py) as int, (dx + px) as int);
                assert(in_rect(w, t, dest_x as int, dest_y as int, tile_w as int, tile_h as int));
                assert(!rect_visited(w, t, dest_x as int, dest_y as int, py as int, px as int));
                assert(atlas_source(atlas, w, t, src_x as int, src_y as int, dest_x as int, dest_y as int) == pixel);
            }
            if pixel.a != 0 {
                let existing = dest.get_pixel(dx + px, dy + py);
                let blended = blend_pixel(pixel, existing);
                dest.put_pixel(dx + px, dy + py, blended);
            }
            proof {
                assert forall|q: int| 0 <= q < old(dest).pixels@.len() && !in_rect(w, q, dest_x as int, dest_y as int, tile_w as int, tile_h as int)
                    implies #[trigger] dest.pixels@[q] == old(dest).pixels@[q] by {
                    assert(q != t);
                    assert(dest.pixels@[q] == before[q]);
                }
                assert forall|q: int| 0 <= q < old(dest).pixels@.len() && in_rect(w, q, dest_x as int, dest_y as int, tile_w as int, tile_h as int)
                    implies #[trigger] dest.pixels@[q] == (if rect_visited(w, q, dest_x as int, dest_y as int, py as int, px as int + 1) {
                        over(atlas_source(atlas, w, q, src_x as int, src_y as int, dest_x as int, dest_y as int), old(dest).pixels@[q])
                    } else {
                        old(dest).pixels@[q]
                    }) by {
                    if q != t {
                        assert(dest.pixels@[q] == before[q]);
                        vstd::arithmetic::div_mod::lemma_fundamental_div_mod(q, w);
                        if q / w == (dy + py) as int && q % w == (dx + px) as int {
                            assert(w * (q / w) == (q / w) * w) by (nonlinear_arith);
                            assert(q == t);
                        }
                    }
                }
            }
            px = px + 1;
        }
        proof {
            assert forall|q: int| 0 <= q < old(dest).pixels@.len() && in_rect(w, q, dest_x as int, dest_y as int, tile_w as int, tile_h as int)
                implies #[trigger] dest.pixels@[q] == (if rect_visited(w, q, dest_x as int, dest_y as int, py as int + 1, 0) {
                    over(atlas_source(atlas, w, q, src_x as int, src_y as int, dest_x as int, dest_y as int), old(dest).pixels@[q])
                } else {
                    old(dest).pixels@[q]
                }) by {
                if q / w - dest_y == py as int {
                    assert(rect_visited(w, q, dest_x as int, dest_y as int, py as int, px as int));
                }
            }
        }
        py = py + 1;
    }
    proof {
        assert forall|q: int| 0 <= q < old(dest).pixels@.len() && in_rect(w, q, dest_x as int, dest_y as int, tile_w as int, tile_h as int)
            implies #[trigger] dest.pixels@[q] == over(
                atlas_source(atlas, w, q, src_x as int, src_y as int, dest_x as int, dest_y as int),
                old(dest).pixels@[q],
            ) by {
            assert(rect_visited(w, q, dest_x as int, dest_y as int, tile_h as int, 0));
        }
        assert(dest.pixels@ =~= apply_atlas(
            old(dest).pixels@,
            old(dest).width as int,
            old(dest).height as int,
            atlas,
            src_x as int,
            src_y as int,
            tile_w as int,
            tile_h as int,
            dest_x as int,
            dest_y as int,
        ));
    }
}

/// Size and crop offsets under which a stored map is re-rendered.
#[derive(Debug, Clone, Copy, PartialEq, Eq, Structural)]
pub struct StoreGeometry {
    pub width: i32,
    pub height: i32,
    pub non_occluded_x: i32,
    pub non_occluded_y: i32,
}

/// `v` is the least x (`by_x`) or y of the stored rows.
pub open spec fn is_min(rows: Seq<TileRow>, v: int, by_x: bool) -> bool {
    &&& exists|i: int| 0 <= i < rows.len() && v == (if by_x { rows[i].x } else { rows[i].y })
    &&& forall|i: int| 0 <= i < rows.len() ==> v <= (if by_x { (#[trigger] rows[i]).x } else { rows[i].y })
}

/// `v` is the greatest x (`by_x`) or y of the stored rows.
pub open spec fn is_max(rows: Seq<TileRow>, v: int, by_x: bool) -> bool {
    &&& exists|i: int| 0 <= i < rows.len() && v == (if by_x { rows[i].x } else { rows[i].y })
    &&& forall|i: int| 0 <= i < rows.len() ==> v >= (if by_x { (#[trigger] rows[i]).x } else { rows[i].y })
}

/// Least and greatest x or y of a non-empty set of rows.
fn row_bounds(rows: &Vec<TileRow>, by_x: bool) -> (r: (i32, i32))
    requires
        rows@.len() > 0,
    ensures
        is_min(rows@, r.0 as int, by_x),
        is_max(rows@, r.1 as int, by_x),
{
    let first = if by_x { rows[0].x } else { rows[0].y };
    let mut lo = first;
    let mut hi = first;
    let mut i: usize = 1;
    while i < rows.len()
        invariant
            1 <= i <= rows@.len(),
            exists|j: int| 0 <= j < i && lo == (if by_x { rows@[j].x } else { rows@[j].y }),
            exists|j: int| 0 <= j < i && hi == (if by_x { rows@[j].x } else { rows@[j].y }),
            forall|j: int| 0 <= j < i ==> lo <= (if by_x { (#[trigger] rows@[j]).x } else { rows@[j].y }),
            forall|j: int| 0 <= j < i ==> hi >= (if by_x { (#[trigger] rows@[j]).x } else { rows@[j].y }),
        decreases rows@.len() - i,
    {
        let v = if by_x { rows[i].x } else { rows[i].y };
        if v < lo {
            lo = v;
        }
        if v > hi {
            hi = v;
        }
        i = i + 1;
    }
    (lo, hi)
}

/// The least x (`by_x`) or y of the stored rows.
pub open spec fn least(rows: Seq<TileRow>, by_x: bool) -> int {
    choose|v: int| is_min(rows, v, by_x)
}

/// The greatest x (`by_x`) or y of the stored rows.
pub open spec fn greatest(rows: Seq<TileRow>, by_x: bool) -> int {
    choose|v: int| is_max(rows, v, by_x)
}

/// A lemma: the least and greatest coordinates are unique, and the least is not above the greatest.
proof fn lemma_bounds_unique(rows: Seq<TileRow>, lo: int, hi: int, by_x: bool)
    requires
        is_min(rows, lo, by_x),
        is_max(rows, hi, by_x),
    ensures
        least(rows, by_x) == lo,
        greatest(rows, by_x) == hi,
        lo <= hi,
{
    let a = least(rows, by_x);
    let b = greatest(rows, by_x);
    assert(is_min(rows, a, by_x));
    assert(is_max(rows, b, by_x));
    let i = choose|i: int| 0 <= i < rows.len() && a == (if by_x { rows[i].x } else { rows[i].y });
    let j = choose|j: int| 0 <= j < rows.len() && lo == (if by_x { rows[j].x } else { rows[j].y });
    let k = choose|k: int| 0 <= k < rows.len() && b == (if by_x { rows[k].x } else { rows[k].y });
    let l = choose|l: int| 0 <= l < rows.len() && hi == (if by_x { rows[l].x } else { rows[l].y });
    assert(lo <= (if by_x { rows[i].x } else { rows[i].y }));
    assert(a <= (if by_x { rows[j].x } else { rows[j].y }));
    assert(hi >= (if by_x { rows[k].x } else { rows[k].y }));
    assert(b >= (if by_x { rows[l].x } else { rows[l].y }));
    assert(hi >= (if by_x { rows[j].x } else { rows[j].y }));
}

/// The geometry under which stored rows are re-rendered: the metadata row when
/// it gives a positive size; else the extent of the stored cells, with no crop
/// offsets, when that extent fits in 32 bits; none for a map without cells.
pub open spec fn geometry_for(tiles: Seq<TileRow>, metadata: Option<MetadataRow>) -> Option<StoreGeometry> {
    if tiles.len() == 0 {
        None
    } else {
        match metadata {
            Some(m) if m.tiled_width > 0 && m.tiled_height > 0 => Some(StoreGeometry {
                width: m.tiled_width,
                height: m.tiled_height,
                non_occluded_x: m.non_occluded_x,
                non_occluded_y: m.non_occluded_y,
            }),
            _ => {
                let w = greatest(tiles, true) - least(tiles, true) + 1;
                let h = greatest(tiles, false) - least(tiles, false) + 1;
                if w <= i32::MAX && h <= i32::MAX {
                    Some(StoreGeometry { width: w as i32, height: h as i32, non_occluded_x: 0, non_occluded_y: 0 })
                } else {
                    None
                }
            },
        }
    }
}

/// Chooses the geometry of a stored map: the metadata row when it gives a
/// positive size, else the extent of the stored cells with no crop offsets.
/// A map without stored cells is an error of the store; an extent too wide
/// for 32 bits is invalid data.
pub fn store_geometry(tiles: &Vec<TileRow>, metadata: Option<MetadataRow>) -> (r: Result<StoreGeometry, MapError>)
    ensures
        match geometry_for(tiles@, metadata) {
            Some(g) => r == Ok::<StoreGeometry, MapError>(g),
            None => r == Err::<StoreGeometry, MapError>(if tiles@.len() == 0 { MapError::StoreError } else { MapError::InvalidData }),
        },
        r is Ok ==> r->Ok_0.width > 0 && r->Ok_0.height > 0,
{
    if tiles.len() == 0 {
        return Err(MapError::StoreError);
    }
    let (min_x, max_x) = row_bounds(tiles, true);
    let (min_y, max_y) = row_bounds(tiles, false);
    proof {
        lemma_bounds_unique(tiles@, min_x as int, max_x as int, true);
        lemma_bounds_unique(tiles@, min_y as int, max_y as int, false);
    }
    let map_width: i64 = max_x as i64 - min_x as i64 + 1;
    let map_height: i64 = max_y as i64 - min_y as i64 + 1;
    match metadata {
        Some(m) if m.tiled_width > 0 && m.tiled_height > 0 => Ok(StoreGeometry {
            width: m.tiled_width,
            height: m.tiled_height,
            non_occluded_x: m.non_occluded_x,
            non_occluded_y: m.non_occluded_y,
        }),
        _ => {
            if map_width > i32::MAX as i64 || map_height > i32::MAX as i64 {
                return Err(MapError::InvalidData);
            }
            Ok(StoreGeometry { width: map_width as i32, height: map_height as i32, non_occluded_x: 0, non_occluded_y: 0 })
        },
    }
}

/// Position and stack of a tiled object.
pub open spec fn object_view(o: TiledObjectInfo) -> (i32, i32, Seq<i16>) {
    (o.x, o.y, o.ids@)
}

/// The objects that the first `n` stored rows make: a row joins the object of
/// the row before it when both carry the same object index, and otherwise
/// starts a new object at its own position.
pub open spec fn grouped_rows(rows: Seq<ObjectRow>, n: nat) -> Seq<(i32, i32, Seq<i16>)>
    decreases n,
{
    if n == 0 {
        Seq::empty()
    } else {
        let g = grouped_rows(rows, (n - 1) as nat);
        let r = rows[n - 1];
        if n >= 2 && rows[n - 2].object_index == r.object_index {
            g.update(g.len() - 1, (g.last().0, g.last().1, g.last().2.push(r.btl_tile_id as i16)))
        } else {
            g.push((r.x, r.y, seq![r.btl_tile_id as i16]))
        }
    }
}

/// Rebuilds tiled objects from their stored rows, which come ordered by
/// object and stack position: consecutive rows of one object form its stack,
/// and the object takes its position from its first row.
pub fn group_objects(rows: &Vec<ObjectRow>) -> (r: Vec<TiledObjectInfo>)
    ensures
        r@.map_values(|o: TiledObjectInfo| object_view(o)) == grouped_rows(rows@, rows@.len()),
{
    let mut out: Vec<TiledObjectInfo> = Vec::new();
    if rows.len() == 0 {
        proof {
            assert(out@.map_values(|o: TiledObjectInfo| object_view(o)) =~= grouped_rows(rows@, 0));
        }
        return out;
    }
    let mut ids: Vec<i16> = Vec::new();
    let mut cur_index: i32 = rows[0].object_index;
    let mut cur_x: i32 = rows[0].x;
    let mut cur_y: i32 = rows[0].y;
    let mut i: usize = 0;
    while i < rows.len()
        invariant
            i <= rows@.len(),
            rows@.len() > 0,
            i == 0 ==> ids@.len() == 0 && out@.len() == 0 && cur_index == rows@[0].object_index && cur_x == rows@[0].x
                && cur_y == rows@[0].y,
            i > 0 ==> ids@.len() > 0 && cur_index == rows@[i - 1].object_index,
            i > 0 ==> out@.map_values(|o: TiledObjectInfo| object_view(o)).push((cur_x, cur_y, ids@)) == grouped_rows(rows@, i as nat),
        decreases rows@.len() - i,
    {
        let row = rows[i];
        let ghost prev_view = out@.map_values(|o: TiledObjectInfo| object_view(o));
        let ghost prev_group = (cur_x, cur_y, ids@);
        if row.object_index != cur_index && ids.len() > 0 {
            let finished = TiledObjectInfo { ids, x: cur_x, y: cur_y };
            out.push(finished);
            ids = Vec::new();
            proof {
                assert(out@.map_values(|o: TiledObjectInfo| object_view(o)) =~= prev_view.push(prev_group));
            }
            cur_index = row.object_index;
            cur_x = row.x;
            cur_y = row.y;
        }
        ids.push(row.btl_tile_id as i16);
        proof {
            let g = grouped_rows(rows@, i as nat);
            if i > 0 && rows@[i - 1].object_index == row.object_index {
                assert(out@.map_values(|o: TiledObjectInfo| object_view(o)).push((cur_x, cur_y, ids@))
                    =~= g.update(g.len() - 1, (g.last().0, g.last().1, g.last().2.push(row.btl_tile_id as i16))));
            } else if i > 0 {
                assert(out@.map_values(|o: TiledObjectInfo| object_view(o)).push((cur_x, cur_y, ids@))
                    =~= g.push((row.x, row.y, seq![row.btl_tile_id as i16])));
            } else {
                assert(grouped_rows(rows@, 0) =~= Seq::<(i32, i32, Seq<i16>)>::empty());
                assert(ids@ =~= seq![row.btl_tile_id as i16]);
                assert(grouped_rows(rows@, 1) == grouped_rows(rows@, 0).push((row.x, row.y, seq![row.btl_tile_id as i16])));
                assert(out@.map_values(|o: TiledObjectInfo| object_view(o)).push((cur_x, cur_y, ids@))
                    =~= grouped_rows(rows@, 1));
            }
        }
        i = i + 1;
    }
    let ghost prev_view = out@.map_values(|o: TiledObjectInfo| object_view(o));
    out.push(TiledObjectInfo { ids, x: cur_x, y: cur_y });
    proof {
        assert(out@.map_values(|o: TiledObjectInfo| object_view(o)) =~= prev_view.push((cur_x, cur_y, out@.last().ids@)));
    }
    out
}

/// The rows kept in the store for one map.
#[derive(Debug)]
pub struct StoredMap {
    pub tiles: Vec<TileRow>,
    pub objects: Vec<ObjectRow>,
    pub metadata: Option<MetadataRow>,
}

/// Top-left corner of tile `id` in an atlas with `columns` tiles per row.
pub open spec fn atlas_origin_spec(id: int, columns: int) -> (int, int) {
    ((id % columns) * 62, (id / columns) * 32)
}

/// Top-left corner of tile `id` in an atlas with `columns` tiles per row, when it fits in 32 bits.
pub fn atlas_origin(id: u32, columns: u32) -> (r: Option<(u32, u32)>)
    requires
        columns > 0,
    ensures
        match r {
            Some(p) => p.0 == atlas_origin_spec(id as int, columns as int).0 && p.1 == atlas_origin_spec(id as int, columns as int).1,
            None => atlas_origin_spec(id as int, columns as int).0 > u32::MAX || atlas_origin_spec(id as int, columns as int).1 > u32::MAX,
        },
{
    let col = id % columns;
    let row = id / columns;
    let ax: u64 = col as u64 * 62;
    let ay: u64 = row as u64 * 32;
    if ax > u32::MAX as u64 || ay > u32::MAX as u64 {
        return None;
    }
    Some((ax as u32, ay as u32))
}

/// The pixels after atlas tile `id` is drawn at the projection of cell `(x, y)`;
/// nothing is drawn where the position or the atlas corner leaves 32 bits.
pub open spec fn stored_cell(px: Seq<Pixel>, cw: int, ch: int, atlas: &Canvas, id: int, x: int, y: int, diagonal: int, columns: int) -> Seq<Pixel> {
    let dx = project_x(x, y);
    let dy = project_y(x, y, diagonal);
    let o = atlas_origin_spec(id, columns);
    if i32::MIN <= x <= i32::MAX && i32::MIN <= y <= i32::MAX && i32::MIN <= dx <= i32::MAX && i32::MIN <= dy <= i32::MAX
        && o.0 <= u32::MAX && o.1 <= u32::MAX {
        apply_atlas(px, cw, ch, atlas, o.0, o.1, 62, 32, dx, dy)
    } else {
        px
    }
}

/// Projects a cell and draws atlas tile `id` there, unless the position or
/// the atlas corner does not fit in 32 bits.
fn plot_stored_cell(canvas: &mut Canvas, atlas: &Canvas, id: i32, x: i64, y: i64, diagonal: i32, columns: u32)
    requires
        old(canvas).wf(),
        atlas.wf(),
        id > 0,
        diagonal >= 0,
        columns > 0,
        -0x1_0000_0000 <= x <= 0x1_0000_0000,
        -0x1_0000_0000 <= y <= 0x1_0000_0000,
    ensures
        final(canvas).wf(),
        final(canvas).width == old(canvas).width,
        final(canvas).height == old(canvas).height,
        final(canvas).pixels@ == stored_cell(
            old(canvas).pixels@,
            old(canvas).width as int,
            old(canvas).height as int,
            atlas,
            id as int,
            x as int,
            y as int,
            diagonal as int,
            columns as int,
        ),
{
    let px: i64 = (x + y) * 32;
    let py: i64 = (y - x) * 16 + (diagonal as i64 / 2) * 16;
    if x < i32::MIN as i64 || x > i32::MAX as i64 || y < i32::MIN as i64 || y > i32::MAX as i64
        || px < i32::MIN as i64 || px > i32::MAX as i64 || py < i32::MIN as i64 || py > i32::MAX as i64 {
        return;
    }
    let (dest_x, dest_y) = convert_map_coords_to_image_coords(x as i32, y as i32, diagonal);
    match atlas_origin(id as u32, columns) {
        Some((ax, ay)) => plot_atlas_tile(canvas, atlas, ax, ay, TILE_WIDTH, TILE_HEIGHT, dest_x, dest_y),
        None => {},
    }
}

/// Id that a stored row contributes to the ground layer, or to the roof layer (`roof`).
pub open spec fn row_layer_id(row: TileRow, roof: bool) -> int {
    if roof { row.btl_tile_id as int } else { row.gtl_tile_id as int }
}

/// The pixels after the first `k` stored rows, taken in `order`, of one layer are drawn; rows
/// whose id in that layer is not positive draw nothing. Cells are shifted from
/// centred coordinates back by half the width and height.
pub open spec fn layer_upto(px: Seq<Pixel>, cw: int, ch: int, atlas: &Canvas, rows: Seq<TileRow>, order: Seq<usize>, roof: bool, width: int, height: int, columns: int, k: nat) -> Seq<Pixel>
    decreases k,
{
    if k == 0 {
        px
    } else {
        let prev = layer_upto(px, cw, ch, atlas, rows, order, roof, width, height, columns, (k - 1) as nat);
        let row = rows[order[k - 1] as int];
        let id = row_layer_id(row, roof);
        if id > 0 {
            stored_cell(prev, cw, ch, atlas, id, row.x + width / 2, row.y + height / 2, width + height, columns)
        } else {
            prev
        }
    }
}

/// Row `a` comes before row `b` in the compositor's diagonal order: by
/// `y - x`, then by `x`, then by position among the stored rows.
pub open spec fn diagonal_before(rows: Seq<TileRow>, a: usize, b: usize) -> bool {
    let da = rows[a as int].y - rows[a as int].x;
    let db = rows[b as int].y - rows[b as int].x;
    da < db || (da == db && rows[a as int].x < rows[b as int].x) || (da == db && rows[a as int].x == rows[b as int].x && a < b)
}

/// `order` holds every stored row once, in diagonal order.
pub open spec fn is_diagonal_order(rows: Seq<TileRow>, order: Seq<usize>) -> bool {
    &&& order.len() == rows.len()
    &&& forall|i: int| 0 <= i < order.len() ==> #[trigger] order[i] < rows.len()
    &&& forall|k: int| 0 <= k < rows.len() ==> #[trigger] order.contains(k as usize)
    &&& forall|i: int, j: int| 0 <= i < j < order.len() ==> diagonal_before(rows, #[trigger] order[i], #[trigger] order[j])
}

/// Row `a` is not after row `b` by diagonal and column alone.
fn diag_key_le(a: &TileRow, b: &TileRow) -> (r: bool)
    ensures
        r == ((a.y - a.x < b.y - b.x) || (a.y - a.x == b.y - b.x && a.x <= b.x)),
{
    let da = a.y as i64 - a.x as i64;
    let db = b.y as i64 - b.x as i64;
    da < db || (da == db && a.x <= b.x)
}

/// Orders the stored rows as the compositor walks the grid: diagonal by
/// diagonal (`y - x` ascending), each from its least `x`; rows at the same
/// cell keep their stored order.
pub fn diagonal_order(rows: &Vec<TileRow>) -> (r: Vec<usize>)
    ensures
        is_diagonal_order(rows@, r@),
{
    let mut out: Vec<usize> = Vec::new();
    let mut k: usize = 0;
    while k < rows.len()
        invariant
            k <= rows@.len(),
            out@.len() == k,
            forall|i: int| 0 <= i < out@.len() ==> #[trigger] out@[i] < k,
            forall|m: int| 0 <= m < k ==> #[trigger] out@.contains(m as usize),
            forall|i: int, j: int| 0 <= i < j < out@.len() ==> diagonal_before(rows@, #[trigger] out@[i], #[trigger] out@[j]),
        decreases rows@.len() - k,
    {
        let mut j: usize = 0;
        while j < out.len() && diag_key_le(&rows[out[j]], &rows[k])
            invariant
                j <= out@.len(),
                k < rows@.len(),
                forall|i: int| 0 <= i < out@.len() ==> #[trigger] out@[i] < k,
                forall|q: int| 0 <= q < j ==> {
                    let a = rows@[(#[trigger] out@[q]) as int];
                    (a.y - a.x < rows@[k as int].y - rows@[k as int].x) || (a.y - a.x == rows@[k as int].y - rows@[k as int].x
                        && a.x <= rows@[k as int].x)
                },
            decreases out@.len() - j,
        {
            j = j + 1;
        }
        let ghost before = out@;
        proof {
            if j < out@.len() {
                assert forall|q: int| j <= q < out@.len() implies diagonal_before(rows@, k, #[trigger] out@[q]) by {
                    if q > j {
                        assert(diagonal_before(rows@, out@[j as int], out@[q]));
                    }
                }
            }
        }
        out.insert(j, k);
        proof {
            assert(out@ == before.insert(j as int, k));
            assert forall|a: int, b: int| 0 <= a < b < out@.len() implies diagonal_before(rows@, #[trigger] out@[a], #[trigger] out@[b]) by {
                if a < j && b < j {
                    assert(diagonal_before(rows@, before[a], before[b]));
                } else if a < j && b == j {
                    assert(before[a] < k);
                } else if a < j && b > j {
                    assert(diagonal_before(rows@, before[a], before[b - 1]));
                } else if a == j {
                } else {
                    assert(diagonal_before(rows@, before[a - 1], before[b - 1]));
                }
            }
            assert forall|i: int| 0 <= i < out@.len() implies #[trigger] out@[i] < k + 1 by {
                if i < j {
                    assert(out@[i] == before[i]);
                } else if i > j {
                    assert(out@[i] == before[i - 1]);
                }
            }
            assert forall|m: int| 0 <= m < k + 1 implies #[trigger] out@.contains(m as usize) by {
                if m == k {
                    assert(out@[j as int] == k);
                } else {
                    assert(before.contains(m as usize));
                    let w = choose|w: int| 0 <= w < before.len() && before[w] == m as usize;
                    if w < j {
                        assert(out@[w] == m as usize);
                    } else {
                        assert(out@[w + 1] == m as usize);
                    }
                }
            }
        }
        k = k + 1;
    }
    out
}

/// Draws one layer (ground, or roof when `roof`) of the stored cells from its atlas, in `order`.
fn plot_store_layer(canvas: &mut Canvas, atlas: &Canvas, rows: &Vec<TileRow>, order: &Vec<usize>, roof: bool, width: i32, height: i32, columns: u32)
    requires
        forall|i: int| 0 <= i < order@.len() ==> #[trigger] order@[i] < rows@.len(),
        old(canvas).wf(),
        atlas.wf(),
        width > 0,
        height > 0,
        (width + height) * 32 <= u32::MAX,
        columns > 0,
    ensures
        final(canvas).wf(),
        final(canvas).width == old(canvas).width,
        final(canvas).height == old(canvas).height,
        final(canvas).pixels@ == layer_upto(
            old(canvas).pixels@,
            old(canvas).width as int,
            old(canvas).height as int,
            atlas,
            rows@,
            order@,
            roof,
            width as int,
            height as int,
            columns as int,
            order@.len(),
        ),
{
    let diagonal: i32 = width + height;
    let mut i: usize = 0;
    while i < order.len()
        invariant
            forall|j: int| 0 <= j < order@.len() ==> #[trigger] order@[j] < rows@.len(),
            canvas.wf(),
            canvas.width == old(canvas).width,
            canvas.height == old(canvas).height,
            atlas.wf(),
            width > 0,
            height > 0,
            diagonal == width + height,
            (width + height) * 32 <= u32::MAX,
            columns > 0,
            i <= order@.len(),
            canvas.pixels@ == layer_upto(
                old(canvas).pixels@,
                old(canvas).width as int,
                old(canvas).height as int,
                atlas,
                rows@,
                order@,
                roof,
                width as int,
                height as int,
                columns as int,
                i as nat,
            ),
        decreases order@.len() - i,
    {
        let row = rows[order[i]];
        let id = if roof { row.btl_tile_id } else { row.gtl_tile_id };
        if id > 0 {
            plot_stored_cell(canvas, atlas, id, row.x as i64 + (width / 2) as i64, row.y as i64 + (height / 2) as i64,
                diagonal, columns);
        }
        i = i + 1;
    }
}

/// Stack height, in tiles, that a stored object contributes to its anchor
/// (capped far above anything a store holds).
pub open spec fn stack_tiles(n: int) -> int {
    if n > 0x1_0000_0000 { 0x1_0000_0000 } else { n }
}

/// The pixels after the first `n` tiles of a stored object are drawn from the
/// atlas, one tile height apart, at its position shifted by the crop offsets;
/// ids that are not positive draw nothing.
pub open spec fn store_stack_upto(px: Seq<Pixel>, cw: int, ch: int, atlas: &Canvas, obj: TiledObjectInfo, off_x: int, off_y: int, columns: int, n: nat) -> Seq<Pixel>
    decreases n,
{
    if n == 0 {
        px
    } else {
        let prev = store_stack_upto(px, cw, ch, atlas, obj, off_x, off_y, columns, (n - 1) as nat);
        let id = obj.ids@[n - 1];
        let x = obj.x + off_x;
        let y = obj.y + stack_tiles(n - 1) * 32 + off_y;
        let o = atlas_origin_spec(id as int, columns);
        if id > 0 && i32::MIN <= x <= i32::MAX && i32::MIN <= y <= i32::MAX && o.0 <= u32::MAX && o.1 <= u32::MAX {
            apply_atlas(prev, cw, ch, atlas, o.0, o.1, 62, 32, x, y)
        } else {
            prev
        }
    }
}

/// Draws one stored object's stack from the building atlas.
fn plot_store_object(canvas: &mut Canvas, atlas: &Canvas, obj: &TiledObjectInfo, off_x: i32, off_y: i32, columns: u32)
    requires
        old(canvas).wf(),
        atlas.wf(),
        columns > 0,
    ensures
        final(canvas).wf(),
        final(canvas).width == old(canvas).width,
        final(canvas).height == old(canvas).height,
        final(canvas).pixels@ == store_stack_upto(
            old(canvas).pixels@,
            old(canvas).width as int,
            old(canvas).height as int,
            atlas,
            *obj,
            off_x as int,
            off_y as int,
            columns as int,
            obj.ids@.len(),
        ),
{
    let mut s: usize = 0;
    while s < obj.ids.len()
        invariant
            canvas.wf(),
            canvas.width == old(canvas).width,
            canvas.height == old(canvas).height,
            atlas.wf(),
            columns > 0,
            s <= obj.ids@.len(),
            canvas.pixels@ == store_stack_upto(
                old(canvas).pixels@,
                old(canvas).width as int,
                old(canvas).height as int,
                atlas,
                *obj,
                off_x as int,
                off_y as int,
                columns as int,
                s as nat,
            ),
        decreases obj.ids@.len() - s,
    {
        let btl_id = obj.ids[s];
        let x: i64 = obj.x as i64 + off_x as i64;
        let y: i64 = obj.y as i64 + (if s as u64 > 0x1_0000_0000 { 0x1_0000_0000 } else { s as i64 }) * 32 + off_y as i64;
        if btl_id > 0 && i32::MIN as i64 <= x && x <= i32::MAX as i64 && i32::MIN as i64 <= y && y <= i32::MAX as i64 {
            match atlas_origin(btl_id as u32, columns) {
                Some((ax, ay)) => plot_atlas_tile(canvas, atlas, ax, ay, TILE_WIDTH, TILE_HEIGHT, x as i32, y as i32),
                None => {},
            }
        }
        s = s + 1;
    }
}

/// `items` lists the stored objects in order, each with its ground anchor.
pub open spec fn store_items_of(objects: Seq<TiledObjectInfo>, items: Seq<RenderItem>) -> bool {
    &&& items.len() == objects.len()
    &&& forall|k: int| 0 <= k < items.len() ==> {
        &&& (#[trigger] items[k]).seq == k
        &&& items[k].index == k
        &&& items[k].kind == ItemKind::TiledObject
        &&& items[k].ground_y == objects[k].y + stack_tiles(objects[k].ids@.len() as int) * 32
    }
}

/// `ord` holds every stored object once, in paint order.
pub open spec fn is_store_order(objects: Seq<TiledObjectInfo>, ord: Seq<RenderItem>) -> bool {
    &&& in_paint_order(ord)
    &&& exists|items: Seq<RenderItem>| #[trigger] store_items_of(objects, items) && ord.len() == items.len() && ord.to_set() == items.to_set()
}

/// The pixels after the first `n` objects of `ord` are drawn.
pub open spec fn store_objects_upto(px: Seq<Pixel>, cw: int, ch: int, atlas: &Canvas, objects: Seq<TiledObjectInfo>, ord: Seq<RenderItem>, off_x: int, off_y: int, columns: int, n: nat) -> Seq<Pixel>
    decreases n,
{
    if n == 0 {
        px
    } else {
        let prev = store_objects_upto(px, cw, ch, atlas, objects, ord, off_x, off_y, columns, (n - 1) as nat);
        store_stack_upto(prev, cw, ch, atlas, objects[ord[n - 1].index as int], off_x, off_y, columns, objects[ord[n - 1].index as int].ids@.len())
    }
}

/// Orders stored objects by ground anchor, equal anchors in stored order.
pub fn store_render_order(objects: &Vec<TiledObjectInfo>) -> (r: Vec<RenderItem>)
    ensures
        is_store_order(objects@, r@),
{
    let mut items: Vec<RenderItem> = Vec::new();
    let mut k: usize = 0;
    while k < objects.len()
        invariant
            k <= objects@.len(),
            items@.len() == k,
            forall|j: int| 0 <= j < k ==> {
                &&& (#[trigger] items@[j]).seq == j
                &&& items@[j].index == j
                &&& items@[j].kind == ItemKind::TiledObject
                &&& items@[j].ground_y == objects@[j].y + stack_tiles(objects@[j].ids@.len() as int) * 32
            },
        decreases objects@.len() - k,
    {
        let o = &objects[k];
        let stack: i64 = if o.ids.len() as u64 > 0x1_0000_0000 { 0x1_0000_0000 } else { o.ids.len() as i64 };
        items.push(RenderItem { ground_y: o.y as i64 + stack * 32, kind: ItemKind::TiledObject, index: k, seq: k });
        k = k + 1;
    }
    let ordered = order_by_anchor(&items);
    proof {
        assert(store_items_of(objects@, items@));
    }
    ordered
}

/// Re-renders a stored map from its rows and the ground and building atlases,
/// without the map file: ground cells, then tiled objects by ground anchor,
/// then roofs, each tile composited from the atlas. The canvas spans the
/// diagonal of the chosen geometry: 32 pixels wide and 16 high per cell.
pub fn render_from_store(stored: &StoredMap, gtl_atlas: &Canvas, btl_atlas: &Canvas, atlas_columns: u32) -> (r: Result<Canvas, MapError>)
    requires
        gtl_atlas.wf(),
        btl_atlas.wf(),
    ensures
        stored.tiles@.len() == 0 ==> r == Err::<Canvas, MapError>(MapError::StoreError),
        atlas_columns == 0 && stored.tiles@.len() > 0 ==> r == Err::<Canvas, MapError>(MapError::InvalidData),
        (r is Ok) == store_render_ok(stored, atlas_columns as int),
        r is Err ==> r->Err_0 == MapError::StoreError || r->Err_0 == MapError::InvalidData,
        r is Ok ==> {
            let c = r->Ok_0;
            let cw = c.width as int;
            let ch = c.height as int;
            let g = geometry_for(stored.tiles@, stored.metadata)->Some_0;
            &&& c.wf()
            &&& geometry_for(stored.tiles@, stored.metadata) is Some
            &&& exists|objects: Seq<TiledObjectInfo>, ord: Seq<RenderItem>, cells: Seq<usize>| {
                &&& c.width == (g.width + g.height) * 32
                &&& c.height == (g.width + g.height) * 16
                &&& objects.map_values(|o: TiledObjectInfo| object_view(o)) == grouped_rows(stored.objects@, stored.objects@.len())
                &&& #[trigger] is_store_order(objects, ord)
                &&& #[trigger] is_diagonal_order(stored.tiles@, cells)
                &&& c.pixels@ == layer_upto(
                    store_objects_upto(
                        layer_upto(Seq::new((cw * ch) as nat, |i: int| Pixel { r: 0, g: 0, b: 0, a: 0 }), cw, ch, gtl_atlas, stored.tiles@, cells, false, g.width as int, g.height as int, atlas_columns as int, cells.len()),
                        cw, ch, btl_atlas, objects, ord, g.non_occluded_x as int, g.non_occluded_y as int, atlas_columns as int, ord.len()),
                    cw, ch, btl_atlas, stored.tiles@, cells, true, g.width as int, g.height as int, atlas_columns as int, cells.len())
            }
        },
{
    let geometry = match store_geometry(&stored.tiles, stored.metadata) {
        Ok(g) => g,
        Err(e) => {
            return Err(e);
        },
    };
    if atlas_columns == 0 {
        return Err(MapError::InvalidData);
    }
    let width = geometry.width as i64;
    let height = geometry.height as i64;
    let diagonal: i64 = width + height;
    if width <= 0 || height <= 0 || diagonal * 32 > u32::MAX as i64 {
        return Err(MapError::InvalidData);
    }
    let image_width = (diagonal * 32) as u32;
    let image_height = (diagonal * 16) as u32;
    assert(image_width as u64 * image_height as u64 <= 0xffff_ffff * 0xffff_ffff) by (nonlinear_arith)
        requires image_width <= 0xffff_ffff, image_height <= 0xffff_ffff;
    if image_width as u64 * image_height as u64 > usize::MAX as u64 {
        return Err(MapError::InvalidData);
    }
    let mut canvas = Canvas::new(image_width, image_height);
    let ghost cw = image_width as int;
    let ghost ch = image_height as int;
    proof {
        assert(canvas.pixels@ =~= Seq::new((cw * ch) as nat, |i: int| Pixel { r: 0, g: 0, b: 0, a: 0 }));
    }
    let cells = diagonal_order(&stored.tiles);
    plot_store_layer(&mut canvas, gtl_atlas, &stored.tiles, &cells, false, geometry.width, geometry.height, atlas_columns);
    let ghost ground = canvas.pixels@;
    let objects = group_objects(&stored.objects);
    let ordered = store_render_order(&objects);
    let ghost ord = ordered@;
    let ghost items = choose|items: Seq<RenderItem>| #[trigger] store_items_of(objects@, items) && ord.len() == items.len() && ord.to_set() == items.to_set();
    let mut n: usize = 0;
    while n < ordered.len()
        invariant
            canvas.wf(),
            canvas.width == image_width,
            canvas.height == image_height,
            cw == image_width,
            ch == image_height,
            btl_atlas.wf(),
            atlas_columns > 0,
            ord == ordered@,
            store_items_of(objects@, items),
            ordered@.to_set() == items.to_set(),
            n <= ordered@.len(),
            canvas.pixels@ == store_objects_upto(ground, cw, ch, btl_atlas, objects@, ord, geometry.non_occluded_x as int,
                geometry.non_occluded_y as int, atlas_columns as int, n as nat),
        decreases ordered@.len() - n,
    {
        let item = ordered[n];
        proof {
            assert(ordered@.to_set().contains(item));
            let w = choose|w: int| 0 <= w < items.len() && items[w] == item;
            assert(items[w].index == w);
        }
        plot_store_object(&mut canvas, btl_atlas, &objects[item.index], geometry.non_occluded_x, geometry.non_occluded_y, atlas_columns);
        n = n + 1;
    }
    plot_store_layer(&mut canvas, btl_atlas, &stored.tiles, &cells, true, geometry.width, geometry.height, atlas_columns);
    proof {
        assert(geometry_for(stored.tiles@, stored.metadata) == Some(geometry));
        assert(is_store_order(objects@, ord));
    }
    Ok(canvas)
}

/// A stored map can be re-rendered: it has a geometry, the atlases have
/// columns, and the canvas, as wide as 32 and as high as 16 pixels per cell of
/// the diagonal, has a width that fits in 32 bits and a pixel count that fits in memory.
pub open spec fn store_render_ok(stored: &StoredMap, columns: int) -> bool {
    match geometry_for(stored.tiles@, stored.metadata) {
        Some(g) => {
            let diag = g.width + g.height;
            &&& columns > 0
            &&& diag * 32 <= u32::MAX
            &&& (diag * 32) * (diag * 16) <= usize::MAX
        },
        None => false,
    }
}

} // verus!
