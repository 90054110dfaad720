use vstd::prelude::*;

verus! {

/// Tiles per chunk along each side of the map.
pub const MAP_CHUNK_SIZE: i32 = 25;

/// Horizontal distance, in pixels, between the anchors of two neighbouring cells.
pub const TILE_HORIZONTAL_OFFSET_HALF: i32 = 32;

/// Half the height of a ground tile in pixels.
pub const TILE_HEIGHT_HALF: i32 = 16;

/// Half the width of a ground tile in pixels.
pub const TILE_WIDTH_HALF: i32 = 31;

/// Largest diagonal whose pixel width still fits in an `i32`.
pub const MAX_DIAGONAL: i32 = 2684354;

/// Canvas geometry of a map, derived from the two header integers.
#[derive(Debug, Clone, Copy, PartialEq, Eq, Structural)]
pub struct MapModel {
    pub tiled_map_width: i32,
    pub tiled_map_height: i32,
    pub map_width_in_pixels: i32,
    pub map_height_in_pixels: i32,
    pub map_non_occluded_start_x: i32,
    pub map_non_occluded_start_y: i32,
    pub occluded_map_in_pixels_width: i32,
    pub occluded_map_in_pixels_height: i32,
}

/// Horizontal pixel of cell `(x, y)`.
pub open spec fn project_x(x: int, y: int) -> int {
    (x + y) * 32
}

/// Half of `d`, rounded toward zero as integer division does.
pub open spec fn half_toward_zero(d: int) -> int {
    if d >= 0 { d / 2 } else { -((-d) / 2) }
}

/// Vertical pixel of cell `(x, y)` on a map of the given diagonal.
pub open spec fn project_y(x: int, y: int, diagonal: int) -> int {
    (y - x) * 16 + half_toward_zero(diagonal) * 16
}

/// The header is accepted: both dimensions positive and every derived size fits.
pub open spec fn header_ok(width: int, height: int) -> bool {
    width > 0 && height > 0 && width + height <= MAX_DIAGONAL
}

/// `m` is the model of a map with header dimensions `width` by `height`.
///
/// The crop offsets are `round(0.3 * pixel_w) - 32` and `round(0.2 * pixel_h)`;
/// since the pixel sizes are multiples of 400, those products are whole numbers.
pub open spec fn model_of(m: MapModel, width: int, height: int) -> bool {
    let d = width + height;
    &&& m.tiled_map_width == width * 25 - 1
    &&& m.tiled_map_height == height * 25 - 1
    &&& m.map_width_in_pixels == d * 25 * 32
    &&& m.map_height_in_pixels == d * 25 * 16
    &&& m.map_non_occluded_start_x == m.map_width_in_pixels * 3 / 10 - 32
    &&& m.map_non_occluded_start_y == m.map_height_in_pixels * 2 / 10
    &&& m.occluded_map_in_pixels_width == m.map_width_in_pixels - 2 * m.map_non_occluded_start_x
    &&& m.occluded_map_in_pixels_height == m.map_height_in_pixels - 2 * m.map_non_occluded_start_y
}

impl MapModel {
    /// A model that some accepted header produces.
    pub open spec fn wf(&self) -> bool {
        exists|w: int, h: int| header_ok(w, h) && model_of(*self, w, h)
    }

    /// Number of cells in the tiled grid.
    pub open spec fn cell_count(&self) -> int {
        self.tiled_map_width * self.tiled_map_height
    }

    /// Derives the map geometry from the header dimensions.
    pub fn from_header(width: i32, height: i32) -> (r: Result<MapModel, crate::error::MapError>)
        ensures
            match r {
                Ok(m) => header_ok(width as int, height as int) && model_of(m, width as int, height as int),
                Err(e) => !header_ok(width as int, height as int) && (
                    if width <= 0 || height <= 0 {
                        e == crate::error::MapError::InvalidDimensions
                    } else {
                        e == crate::error::MapError::ArithmeticOverflow
                    }),
            },
    {
        if width <= 0 || height <= 0 {
            return Err(crate::error::MapError::InvalidDimensions);
        }
        let diagonal: i32 = match width.checked_add(height) {
            Some(d) => d,
            None => return Err(crate::error::MapError::ArithmeticOverflow),
        };
        if diagonal > MAX_DIAGONAL {
            return Err(crate::error::MapError::ArithmeticOverflow);
        }
        let tiled_map_width: i32 = width * MAP_CHUNK_SIZE - 1;
        let tiled_map_height: i32 = height * MAP_CHUNK_SIZE - 1;
        let map_width_in_pixels: i32 = diagonal * MAP_CHUNK_SIZE * TILE_HORIZONTAL_OFFSET_HALF;
        let map_height_in_pixels: i32 = diagonal * MAP_CHUNK_SIZE * TILE_HEIGHT_HALF;
        let map_non_occluded_start_x: i32 = map_width_in_pixels / 10 * 3 - TILE_HORIZONTAL_OFFSET_HALF;
        let map_non_occluded_start_y: i32 = map_height_in_pixels / 10 * 2;
        let occluded_map_in_pixels_width: i32 = map_width_in_pixels - map_non_occluded_start_x * 2;
        let occluded_map_in_pixels_height: i32 = map_height_in_pixels - map_non_occluded_start_y * 2;
        Ok(MapModel {
            tiled_map_width,
            tiled_map_height,
            map_width_in_pixels,
            map_height_in_pixels,
            map_non_occluded_start_x,
            map_non_occluded_start_y,
            occluded_map_in_pixels_width,
            occluded_map_in_pixels_height,
        })
    }
}

/// Size bounds of every accepted map model.
pub proof fn lemma_model_bounds(m: MapModel)
    requires
        m.wf(),
    ensures
        24 <= m.tiled_map_width,
        24 <= m.tiled_map_height,
        m.tiled_map_width + m.tiled_map_height <= 67108848,
        0 <= m.map_non_occluded_start_x <= 644244928,
        0 <= m.map_non_occluded_start_y <= 214748320,
        0 < m.map_width_in_pixels <= 2147483200,
        0 < m.map_height_in_pixels <= 1073741600,
        0 < m.occluded_map_in_pixels_width <= m.map_width_in_pixels,
        0 < m.occluded_map_in_pixels_height <= m.map_height_in_pixels,
{
    let (w, h) = choose|w: int, h: int| header_ok(w, h) && model_of(m, w, h);
    assert(header_ok(w, h) && model_of(m, w, h));
}

/// Pixel position of grid cell `(x, y)` for a map of the given diagonal.
pub fn convert_map_coords_to_image_coords(x: i32, y: i32, map_diagonal_tiles: i32) -> (r: (i32, i32))
    requires
        i32::MIN <= project_x(x as int, y as int) <= i32::MAX,
        i32::MIN <= project_y(x as int, y as int, map_diagonal_tiles as int) <= i32::MAX,
    ensures
        r.0 == project_x(x as int, y as int),
        r.1 == project_y(x as int, y as int, map_diagonal_tiles as int),
{
    let sx: i64 = (x as i64 + y as i64) * 32;
    let half: i64 = map_diagonal_tiles as i64 / 2;
    assert(half == half_toward_zero(map_diagonal_tiles as int));
    let sy: i64 = (y as i64 - x as i64) * 16 + half * 16;
    (sx as i32, sy as i32)
}

} // verus!
