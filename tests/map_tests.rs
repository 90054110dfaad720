use dispel_map::canvas::{blend_pixel, Canvas, Pixel};
use dispel_map::color::{blend_channel, mix_color, rgb16_565_produce_color, Color};
use dispel_map::decode::read_map_data;
use dispel_map::error::MapError;
use dispel_map::geometry::{convert_map_coords_to_image_coords, MapModel};
use dispel_map::order::{order_by_anchor, ItemKind, RenderItem};
use dispel_map::store::{map_metadata, map_tile_rows};
use dispel_map::tile::create_mask;

fn push_i32(buf: &mut Vec<u8>, v: i32) {
    buf.extend_from_slice(&v.to_le_bytes());
}

fn push_i16(buf: &mut Vec<u8>, v: i16) {
    buf.extend_from_slice(&v.to_le_bytes());
}

/// A 1x1 map (24x24 cells) with no sprites and no objects; `cell` fills the grids.
fn small_map(cell: impl Fn(usize) -> (i16, i32, i16)) -> Vec<u8> {
    let mut buf = Vec::new();
    push_i32(&mut buf, 1);
    push_i32(&mut buf, 1);
    push_i32(&mut buf, 0);
    push_i32(&mut buf, 0);
    push_i32(&mut buf, 0);
    push_i32(&mut buf, 0);
    push_i32(&mut buf, 0);
    let n = 24 * 24;
    for i in 0..n {
        push_i16(&mut buf, cell(i).0);
        push_i16(&mut buf, 0);
    }
    for i in 0..n {
        push_i32(&mut buf, cell(i).1);
    }
    for i in 0..n {
        push_i16(&mut buf, cell(i).2);
        push_i16(&mut buf, 0);
    }
    buf
}

#[test]
fn rgb16_565_produce_color_test() {
    let color = rgb16_565_produce_color(0);
    assert_eq!(color.r as i16 + color.g as i16 + color.b as i16, 0);
}

#[test]
fn rgb565_expands_each_channel() {
    let c = rgb16_565_produce_color(0xFFFF);
    assert_eq!((c.r, c.g, c.b), (248, 252, 248));
    let c = rgb16_565_produce_color(0b10000_100000_00001);
    assert_eq!((c.r, c.g, c.b), (128, 128, 8));
}

#[test]
fn header_two_by_one_model() {
    let m = MapModel::from_header(2, 1).unwrap();
    assert_eq!(m.tiled_map_width, 49);
    assert_eq!(m.tiled_map_height, 24);
    assert_eq!(m.map_width_in_pixels, 2400);
    assert_eq!(m.map_height_in_pixels, 1200);
    assert_eq!(m.map_non_occluded_start_x, 688);
    assert_eq!(m.map_non_occluded_start_y, 240);
    assert_eq!(m.occluded_map_in_pixels_width, 1024);
    assert_eq!(m.occluded_map_in_pixels_height, 720);
    assert_eq!(m.tiled_map_width + m.tiled_map_height - 48, 25);
}

#[test]
fn header_one_by_one_model() {
    let m = MapModel::from_header(1, 1).unwrap();
    assert_eq!(m.tiled_map_width, 24);
    assert_eq!(m.tiled_map_height, 24);
    assert_eq!(m.map_width_in_pixels, 1600);
    assert_eq!(m.map_height_in_pixels, 800);
}

#[test]
fn header_overflow_and_bad_dimensions() {
    assert_eq!(MapModel::from_header(i32::MAX, 1).unwrap_err(), MapError::ArithmeticOverflow);
    assert_eq!(MapModel::from_header(2_000_000, 2_000_000).unwrap_err(), MapError::ArithmeticOverflow);
    assert_eq!(MapModel::from_header(0, 5).unwrap_err(), MapError::InvalidDimensions);
    assert_eq!(MapModel::from_header(5, -1).unwrap_err(), MapError::InvalidDimensions);
}

#[test]
fn projection_is_exact_integer_arithmetic() {
    assert_eq!(convert_map_coords_to_image_coords(0, 0, 48), (0, 384));
    assert_eq!(convert_map_coords_to_image_coords(3, 1, 73), (128, 544));
    assert_eq!(convert_map_coords_to_image_coords(3, 1, 73), convert_map_coords_to_image_coords(3, 1, 73));
}

#[test]
fn atlas_blend_alpha_cases() {
    let dst = Pixel { r: 10, g: 20, b: 30, a: 255 };
    let src = Pixel { r: 200, g: 100, b: 0, a: 0 };
    assert_eq!(blend_pixel(src, dst), dst);
    let src = Pixel { r: 200, g: 100, b: 0, a: 255 };
    assert_eq!(blend_pixel(src, dst), src);
    let src = Pixel { r: 200, g: 100, b: 0, a: 128 };
    let r = blend_pixel(src, dst);
    assert_eq!(r.r as u32, (200 * 128 + 10 * 127) / 255);
    assert_eq!(r.g as u32, (100 * 128 + 20 * 127) / 255);
    assert_eq!(r.b as u32, (30 * 127) / 255);
    assert_eq!(r.a, 255);
    assert_eq!(blend_channel(255, 0, 128), 128);
}

#[test]
fn event_tint_blends_toward_highlight() {
    let base = vec![Color { r: 0, g: 0, b: 255 }; 1024];
    let tinted = mix_color(&base, Color { r: 200, g: 255, b: 10 }, 50);
    assert_eq!(tinted.len(), 1024);
    assert_eq!(tinted[0].r as u32, 200 * 50 / 255);
    assert_eq!(tinted[0].g as u32, 255 * 50 / 255);
    assert_eq!(tinted[0].b as u32, (10 * 50 + 255 * 205) / 255);
}

#[test]
fn diamond_mask_rows() {
    let m = create_mask();
    assert_eq!(m.widths.len(), 32);
    assert_eq!((m.offsets[0], m.widths[0]), (30, 2));
    assert_eq!((m.offsets[15], m.widths[15]), (0, 62));
    assert_eq!((m.offsets[16], m.widths[16]), (0, 62));
    assert_eq!((m.offsets[31], m.widths[31]), (30, 2));
    assert_eq!(m.widths.iter().sum::<i32>(), 1024);
}

fn item(ground_y: i64, index: usize, seq: usize) -> RenderItem {
    RenderItem { ground_y, kind: ItemKind::TiledObject, index, seq }
}

#[test]
fn lower_anchor_is_painted_first() {
    let items = vec![item(100, 0, 0), item(90, 1, 1)];
    let ordered = order_by_anchor(&items);
    assert_eq!(ordered[0].ground_y, 90);
    assert_eq!(ordered[1].ground_y, 100);
}

#[test]
fn equal_anchors_keep_list_order() {
    let items = vec![item(50, 0, 0), item(20, 1, 1), item(50, 2, 2), item(20, 3, 3)];
    let ordered = order_by_anchor(&items);
    let idx: Vec<usize> = ordered.iter().map(|i| i.index).collect();
    assert_eq!(idx, vec![1, 3, 0, 2]);
    for w in ordered.windows(2) {
        assert!(w[0].ground_y <= w[1].ground_y);
    }
}

#[test]
fn decode_small_map_grids() {
    let data = small_map(|i| if i == 5 { (7, 3 << 10, 0) } else if i == 30 { (0, 6 << 10, 12) } else { (0, 0, -3) });
    let map = read_map_data(&data).unwrap();
    assert_eq!(map.model.tiled_map_width, 24);
    assert_eq!(map.gtl_tiles.len(), 576);
    assert_eq!(map.events[5].event_id, 7);
    assert_eq!((map.events[30].x, map.events[30].y), (6, 1));
    assert_eq!(map.gtl_tiles[5], 3);
    assert!(map.collisions[5]);
    assert_eq!(map.gtl_tiles[30], 6);
    assert!(!map.collisions[30]);
    assert_eq!(map.btl_tiles[30], 12);
    assert_eq!(map.btl_tiles[0], 0);
    for i in 0..576 {
        assert_eq!(map.collisions[i], (map.gtl_tiles[i] & 1) == 1);
    }
}

#[test]
fn decode_negative_ground_word() {
    let data = small_map(|i| if i == 0 { (0, -1024 * 3, 0) } else { (0, 0, 0) });
    let map = read_map_data(&data).unwrap();
    assert_eq!(map.gtl_tiles[0], -3);
    assert!(map.collisions[0]);
}

#[test]
fn unknown_stamp_fails_whole_file() {
    let mut data = small_map(|_| (0, 0, 0));
    // one catalog entry whose stamp is 7
    data[12..16].copy_from_slice(&1i32.to_le_bytes());
    data[16..20].copy_from_slice(&7i32.to_le_bytes());
    assert_eq!(read_map_data(&data).unwrap_err(), MapError::UnexpectedMagic(7));
}

#[test]
fn short_file_is_io_error() {
    assert_eq!(read_map_data(&[1, 0, 0]).unwrap_err(), MapError::Io);
    let data = small_map(|_| (0, 0, 0));
    assert_eq!(read_map_data(&data[..100]).unwrap_err(), MapError::Io);
}

#[test]
fn stored_rows_skip_default_cells() {
    let data = small_map(|i| if i == 0 { (4, 0, 0) } else if i == 25 { (0, 2 << 10, 0) } else { (0, 0, 0) });
    let map = read_map_data(&data).unwrap();
    let rows = map_tile_rows(&map);
    assert_eq!(rows.len(), 2);
    assert_eq!((rows[0].x, rows[0].y, rows[0].event_id), (-12, -12, 4));
    assert_eq!((rows[1].x, rows[1].y, rows[1].gtl_tile_id), (-11, -11, 2));
    let meta = map_metadata(&map.model);
    assert_eq!((meta.tiled_width, meta.tiled_height), (24, 24));
}

#[test]
fn canvas_put_and_get() {
    let mut c = Canvas::new(4, 3);
    let p = Pixel { r: 1, g: 2, b: 3, a: 4 };
    c.put_pixel(3, 2, p);
    assert_eq!(c.get_pixel(3, 2), p);
    assert_eq!(c.pixels[11], p);
    assert_eq!(c.get_pixel(0, 0), Pixel { r: 0, g: 0, b: 0, a: 0 });
}

#[test]
fn projection_with_negative_diagonal_truncates() {
    assert_eq!(convert_map_coords_to_image_coords(0, 0, -3), (0, -16));
    assert_eq!(convert_map_coords_to_image_coords(5, 5, 10), (320, 80));
}

#[test]
fn header_sum_overflow_kind() {
    let mut data = i32::MAX.to_le_bytes().to_vec();
    data.extend(1i32.to_le_bytes());
    data.extend([0u8; 64]);
    assert_eq!(read_map_data(&data).unwrap_err(), MapError::ArithmeticOverflow);
    let mut data = 0i32.to_le_bytes().to_vec();
    data.extend(1i32.to_le_bytes());
    assert_eq!(read_map_data(&data).unwrap_err(), MapError::InvalidDimensions);
}
