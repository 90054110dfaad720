use vstd::prelude::*;
use crate::decode::{MapData, TiledObjectInfo};
use crate::geometry::{lemma_model_bounds, MapModel};

verus! {

/// A stored cell with at least one non-default layer, at coordinates centred on the map.
#[derive(Debug, Clone, Copy, PartialEq, Eq, Structural)]
pub struct TileRow {
    pub x: i32,
    pub y: i32,
    pub gtl_tile_id: i32,
    pub btl_tile_id: i32,
    pub collision: bool,
    pub event_id: i32,
}

/// One tile of a stored tiled object: the object, its pixel position, the
/// tile id and the tile's place in the stack.
#[derive(Debug, Clone, Copy, PartialEq, Eq, Structural)]
pub struct ObjectRow {
    pub object_index: i32,
    pub x: i32,
    pub y: i32,
    pub btl_tile_id: i32,
    pub stack_order: i32,
}

/// A stored sprite placement.
#[derive(Debug, Clone, Copy, PartialEq, Eq, Structural)]
pub struct SpriteRow {
    pub sprite_index: i32,
    pub x: i32,
    pub y: i32,
    pub sprite_id: i32,
}

/// What a later render needs to reproduce the projection without the map file.
#[derive(Debug, Clone, Copy, PartialEq, Eq, Structural)]
pub struct MetadataRow {
    pub tiled_width: i32,
    pub tiled_height: i32,
    pub non_occluded_x: i32,
    pub non_occluded_y: i32,
}

/// Cell `i` has some non-default layer: a ground or roof tile, a collision or an event.
pub open spec fn cell_is_set(data: &MapData, i: int) -> bool {
    data.gtl_tiles@[i] != 0 || data.btl_tiles@[i] != 0 || data.collisions@[i] || data.events@[i].event_id != 0
}

/// The stored row of cell `i`.
pub open spec fn tile_row_of(data: &MapData, i: int) -> TileRow {
    let w = data.model.tiled_map_width as int;
    let h = data.model.tiled_map_height as int;
    TileRow {
        x: (i % w - w / 2) as i32,
        y: (i / w - h / 2) as i32,
        gtl_tile_id: data.gtl_tiles@[i],
        btl_tile_id: data.btl_tiles@[i],
        collision: data.collisions@[i],
        event_id: data.events@[i].event_id as i32,
    }
}

/// Rows of the set cells among the first `k`, in grid order.
pub open spec fn tile_rows_upto(data: &MapData, k: nat) -> Seq<TileRow>
    decreases k,
{
    if k == 0 {
        Seq::empty()
    } else {
        let prev = tile_rows_upto(data, (k - 1) as nat);
        if cell_is_set(data, k - 1) { prev.push(tile_row_of(data, k - 1)) } else { prev }
    }
}

/// The rows that persist a map's grids: one per set cell, in grid order, at
/// coordinates centred by half the tiled width and height.
pub fn map_tile_rows(data: &MapData) -> (r: Vec<TileRow>)
    requires
        data.wf(),
    ensures
        r@ == tile_rows_upto(data, data.model.cell_count() as nat),
{
    let w = data.model.tiled_map_width;
    let h = data.model.tiled_map_height;
    proof {
        lemma_model_bounds(data.model);
    }
    let n = data.gtl_tiles.len();
    let wu = w as usize;
    let mut rows: Vec<TileRow> = Vec::new();
    let mut i: usize = 0;
    while i < n
        invariant
            data.wf(),
            n == data.model.cell_count(),
            w == data.model.tiled_map_width,
            h == data.model.tiled_map_height,
            wu == w,
            24 <= w,
            24 <= h,
            w + h <= 67108848,
            i <= n,
            rows@ == tile_rows_upto(data, i as nat),
        decreases n - i,
    {
        let gtl = data.gtl_tiles[i];
        let btl = data.btl_tiles[i];
        let collision = data.collisions[i];
        let event_id = data.events[i].event_id;
        if gtl != 0 || btl != 0 || collision || event_id != 0 {
            proof {
                assert(i / wu < h) by (nonlinear_arith)
                    requires i < n, n == w * h, wu == w, w > 0;
                assert(i / wu >= 0) by (nonlinear_arith)
                    requires i >= 0, wu > 0;
            }
            let x = (i % wu) as i32 - w / 2;
            let y = (i / wu) as i32 - h / 2;
            rows.push(TileRow { x, y, gtl_tile_id: gtl, btl_tile_id: btl, collision, event_id: event_id as i32 });
        }
        i = i + 1;
    }
    rows
}

/// Rows of one tiled object: one per stacked tile, top first.
pub open spec fn stack_rows(o: TiledObjectInfo, k: int) -> Seq<ObjectRow> {
    Seq::new(o.ids@.len(), |j: int| ObjectRow {
        object_index: k as i32,
        x: o.x,
        y: o.y,
        btl_tile_id: o.ids@[j] as i32,
        stack_order: j as i32,
    })
}

/// Rows of the first `k` tiled objects.
pub open spec fn object_rows_upto(objects: Seq<TiledObjectInfo>, k: nat) -> Seq<ObjectRow>
    decreases k,
{
    if k == 0 {
        Seq::empty()
    } else {
        object_rows_upto(objects, (k - 1) as nat) + stack_rows(objects[k - 1], k - 1)
    }
}

/// The rows that persist a map's tiled objects, object by object, each stack top first.
pub fn map_object_rows(data: &MapData) -> (r: Vec<ObjectRow>)
    requires
        data.wf(),
    ensures
        r@ == object_rows_upto(data.tiled_infos@, data.tiled_infos@.len()),
{
    let mut rows: Vec<ObjectRow> = Vec::new();
    let mut k: usize = 0;
    while k < data.tiled_infos.len()
        invariant
            data.wf(),
            k <= data.tiled_infos@.len(),
            rows@ == object_rows_upto(data.tiled_infos@, k as nat),
        decreases data.tiled_infos@.len() - k,
    {
        let info = &data.tiled_infos[k];
        let ghost base = rows@;
        let mut j: usize = 0;
        while j < info.ids.len()
            invariant
                data.wf(),
                k < data.tiled_infos@.len(),
                *info == data.tiled_infos@[k as int],
                info.ids@.len() <= i32::MAX,
                j <= info.ids@.len(),
                base == object_rows_upto(data.tiled_infos@, k as nat),
                rows@ == base + stack_rows(*info, k as int).subrange(0, j as int),
            decreases info.ids@.len() - j,
        {
            rows.push(ObjectRow {
                object_index: k as i32,
                x: info.x,
                y: info.y,
                btl_tile_id: info.ids[j] as i32,
                stack_order: j as i32,
            });
            proof {
                assert(stack_rows(*info, k as int).subrange(0, j as int + 1)
                    == stack_rows(*info, k as int).subrange(0, j as int).push(stack_rows(*info, k as int)[j as int]));
            }
            j = j + 1;
        }
        proof {
            assert(stack_rows(*info, k as int).subrange(0, j as int) == stack_rows(*info, k as int));
        }
        k = k + 1;
    }
    rows
}

/// The rows that persist a map's sprite placements, in placement order.
pub fn map_sprite_rows(data: &MapData) -> (r: Vec<SpriteRow>)
    requires
        data.wf(),
    ensures
        r@.len() == data.sprite_blocks@.len(),
        forall|i: int| 0 <= i < r@.len() ==> #[trigger] r@[i] == (SpriteRow {
            sprite_index: i as i32,
            x: data.sprite_blocks@[i].sprite_x,
            y: data.sprite_blocks@[i].sprite_y,
            sprite_id: data.sprite_blocks@[i].sprite_id as i32,
        }),
{
    let mut rows: Vec<SpriteRow> = Vec::new();
    let mut i: usize = 0;
    while i < data.sprite_blocks.len()
        invariant
            data.wf(),
            i <= data.sprite_blocks@.len(),
            rows@.len() == i,
            forall|j: int| 0 <= j < i ==> #[trigger] rows@[j] == (SpriteRow {
                sprite_index: j as i32,
                x: data.sprite_blocks@[j].sprite_x,
                y: data.sprite_blocks@[j].sprite_y,
                sprite_id: data.sprite_blocks@[j].sprite_id as i32,
            }),
        decreases data.sprite_blocks@.len() - i,
    {
        let b = data.sprite_blocks[i];
        proof {
            assert(b.sprite_id < data.internal_sprites@.len());
        }
        rows.push(SpriteRow { sprite_index: i as i32, x: b.sprite_x, y: b.sprite_y, sprite_id: b.sprite_id as i32 });
        i = i + 1;
    }
    rows
}

/// The metadata row of a map: its tiled size and crop offsets.
pub fn map_metadata(model: &MapModel) -> (r: MetadataRow)
    ensures
        r.tiled_width == model.tiled_map_width,
        r.tiled_height == model.tiled_map_height,
        r.non_occluded_x == model.map_non_occluded_start_x,
        r.non_occluded_y == model.map_non_occluded_start_y,
{
    MetadataRow {
        tiled_width: model.tiled_map_width,
        tiled_height: model.tiled_map_height,
        non_occluded_x: model.map_non_occluded_start_x,
        non_occluded_y: model.map_non_occluded_start_y,
    }
}

/// A persisted cell, shifted back by half the stored tiled width and height,
/// projects to the same pixel as the decoded cell it came from: the store keeps
/// what the projection needs, and the projection is the same on both paths.
pub proof fn lemma_stored_cell_projects_alike(data: &MapData, i: int)
    requires
        data.wf(),
        0 <= i < data.model.cell_count(),
    ensures
        ({
            let row = tile_row_of(data, i);
            let meta_w = data.model.tiled_map_width as int;
            let meta_h = data.model.tiled_map_height as int;
            let x = i % meta_w;
            let y = i / meta_w;
            &&& crate::geometry::project_x(row.x + meta_w / 2, row.y + meta_h / 2) == crate::geometry::project_x(x, y)
            &&& crate::geometry::project_y(row.x + meta_w / 2, row.y + meta_h / 2, meta_w + meta_h)
                == crate::geometry::project_y(x, y, meta_w + meta_h)
        }),
{
    lemma_model_bounds(data.model);
    let w = data.model.tiled_map_width as int;
    let h = data.model.tiled_map_height as int;
    assert(0 <= i / w < h) by (nonlinear_arith)
        requires 0 <= i < w * h, w > 0;
    assert(0 <= i % w < w) by (nonlinear_arith)
        requires w > 0;
}

} // verus!
