use dispel_map::atlas::{atlas_origin, diagonal_order, group_objects, plot_atlas_tile, render_from_store, store_geometry, StoredMap};
use dispel_map::canvas::{Canvas, Pixel};
use dispel_map::color::Color;
use dispel_map::decode::read_map_data;
use dispel_map::error::MapError;
use dispel_map::records::{parse_int, read_all_map_ini, read_dialogs, read_dialogue_texts, read_extra_ref, read_npc_ref, read_draw_items, read_event_npc_ref, read_messages, read_party_pgps, read_quests, read_map_ini, read_npc_ini, read_part_refs, read_wave_ini, parse_null, read_chdata, read_edit_item_db, read_event_item_db, read_heal_item_db, read_magic_db, read_misc_item_db, read_monster_db, read_monster_ref, read_party_ini_db, read_party_level_db, read_store_db, read_weapons_db};
use dispel_map::render::{render_map, render_order};
use dispel_map::store::{MetadataRow, ObjectRow, TileRow};
use dispel_map::tile::{plot_tile, plot_tileset_map, read_tileset, Tile};
use dispel_map::sprite::{render_sequence_frame, sequence_layout, ImageInfo};
use dispel_map::store::map_tile_rows;
use dispel_map::geometry::convert_map_coords_to_image_coords;

fn push_i32(buf: &mut Vec<u8>, v: i32) {
    buf.extend_from_slice(&v.to_le_bytes());
}

fn push_i16(buf: &mut Vec<u8>, v: i16) {
    buf.extend_from_slice(&v.to_le_bytes());
}

/// A 1x1 map whose only ground tile id is `ground` at cell 0 and with one tiled object.
fn map_with_object(obj_y: i32, ids: &[i16]) -> Vec<u8> {
    let mut buf = Vec::new();
    for v in [1, 1, 0, 0, 0] {
        push_i32(&mut buf, v);
    }
    push_i32(&mut buf, 1);
    push_i32(&mut buf, 0);
    buf.extend(std::iter::repeat(0u8).take(264));
    for _ in 0..8 {
        push_i32(&mut buf, 0);
    }
    push_i32(&mut buf, 100);
    push_i32(&mut buf, obj_y);
    push_i32(&mut buf, 0);
    push_i32(&mut buf, 0);
    push_i32(&mut buf, 0);
    push_i32(&mut buf, 0);
    push_i32(&mut buf, ids.len() as i32);
    for id in ids {
        push_i16(&mut buf, *id);
    }
    buf.extend(std::iter::repeat(0u8).take(84 + ids.len() * 4));
    let n = 24 * 24;
    for _ in 0..n {
        push_i32(&mut buf, 0);
    }
    for _ in 0..n {
        push_i32(&mut buf, 1 << 10);
    }
    for _ in 0..n {
        push_i32(&mut buf, 0);
    }
    buf
}

fn solid_tile(c: Color) -> Tile {
    Tile { colors: vec![c; 1024] }
}

#[test]
fn decode_tiled_object_stack() {
    let data = map_with_object(40, &[3, -2]);
    let map = read_map_data(&data).unwrap();
    assert_eq!(map.tiled_infos.len(), 1);
    assert_eq!((map.tiled_infos[0].x, map.tiled_infos[0].y), (100, 40));
    assert_eq!(map.tiled_infos[0].ids, vec![3, -2]);
    assert_eq!(map.gtl_tiles[0], 1);
    assert!(map.collisions[0]);
    let order = render_order(&map);
    assert_eq!(order.len(), 1);
    assert_eq!(order[0].ground_y, 40 + 2 * 32);
}

#[test]
fn render_small_map_full_canvas() {
    let data = map_with_object(40, &[1]);
    let map = read_map_data(&data).unwrap();
    let gtl = vec![solid_tile(Color { r: 1, g: 1, b: 1 }), solid_tile(Color { r: 9, g: 9, b: 9 })];
    let btl = vec![solid_tile(Color { r: 5, g: 5, b: 5 }), solid_tile(Color { r: 7, g: 8, b: 9 })];
    let canvas = render_map(&data, &map, false, &gtl, &btl).unwrap();
    assert_eq!((canvas.width, canvas.height), (1600, 800));
    // cell (0, 0) projects to (0, 384); its lozenge's widest row is row 15
    let p = canvas.get_pixel(10, 384 + 15);
    assert_eq!((p.r, p.g, p.b, p.a), (9, 9, 9, 255));
    // the object's single tile is drawn at (100 + 448, 40 + 160)
    let p = canvas.get_pixel(548 + 31, 200 + 16);
    assert_eq!((p.r, p.g, p.b), (7, 8, 9));
}

#[test]
fn render_small_map_cropped_canvas() {
    let data = map_with_object(40, &[1]);
    let map = read_map_data(&data).unwrap();
    let gtl = vec![solid_tile(Color { r: 1, g: 1, b: 1 }), solid_tile(Color { r: 9, g: 9, b: 9 })];
    let btl = vec![solid_tile(Color { r: 5, g: 5, b: 5 }), solid_tile(Color { r: 7, g: 8, b: 9 })];
    let canvas = render_map(&data, &map, true, &gtl, &btl).unwrap();
    assert_eq!((canvas.width, canvas.height), (704, 480));
    let p = canvas.get_pixel(100 + 31, 40 + 16);
    assert_eq!((p.r, p.g, p.b), (7, 8, 9));
}

#[test]
fn plot_tile_draws_diamond_and_skips_black() {
    let mut canvas = Canvas::new(62, 32);
    let mut colors = vec![Color { r: 3, g: 4, b: 5 }; 1024];
    colors[0] = Color { r: 0, g: 9, b: 9 };
    plot_tile(&mut canvas, &colors, 0, 0);
    assert_eq!(canvas.get_pixel(30, 0).a, 0);
    assert_eq!(canvas.get_pixel(31, 0), Pixel { r: 3, g: 4, b: 5, a: 255 });
    assert_eq!(canvas.get_pixel(0, 0).a, 0);
    assert_eq!(canvas.get_pixel(0, 15), Pixel { r: 3, g: 4, b: 5, a: 255 });
    let mut small = Canvas::new(61, 32);
    plot_tile(&mut small, &colors, 0, 0);
    assert!(small.pixels.iter().all(|p| p.a == 0));
}

#[test]
fn tileset_decodes_whole_tiles() {
    let mut bytes = vec![0u8; 2048 * 2 + 5];
    bytes[0] = 0xFF;
    bytes[1] = 0xFF;
    bytes[2048 + 2] = 0x1F;
    let tiles = read_tileset(&bytes);
    assert_eq!(tiles.len(), 2);
    assert_eq!(tiles[0].colors[0], Color { r: 248, g: 252, b: 248 });
    assert_eq!(tiles[1].colors[1], Color { r: 0, g: 0, b: 248 });
    assert_eq!(tiles[1].colors[0], Color { r: 0, g: 0, b: 0 });
}

#[test]
fn atlas_tile_is_blended_onto_canvas() {
    let mut atlas = Canvas::new(4, 2);
    atlas.put_pixel(2, 0, Pixel { r: 200, g: 100, b: 50, a: 255 });
    atlas.put_pixel(3, 0, Pixel { r: 200, g: 100, b: 50, a: 128 });
    let mut dest = Canvas::new(3, 3);
    dest.put_pixel(1, 1, Pixel { r: 10, g: 10, b: 10, a: 255 });
    dest.put_pixel(2, 1, Pixel { r: 10, g: 10, b: 10, a: 255 });
    plot_atlas_tile(&mut dest, &atlas, 2, 0, 2, 1, 1, 1);
    assert_eq!(dest.get_pixel(1, 1), Pixel { r: 200, g: 100, b: 50, a: 255 });
    let p = dest.get_pixel(2, 1);
    assert_eq!(p.r as u32, (200 * 128 + 10 * 127) / 255);
    assert_eq!(p.a, 255);
    // a rectangle outside the atlas is skipped
    plot_atlas_tile(&mut dest, &atlas, 3, 0, 2, 1, 0, 0);
    assert_eq!(dest.get_pixel(0, 0).a, 0);
}

#[test]
fn atlas_origin_by_columns() {
    assert_eq!(atlas_origin(0, 48), Some((0, 0)));
    assert_eq!(atlas_origin(50, 48), Some((2 * 62, 32)));
}

#[test]
fn store_geometry_prefers_metadata() {
    let tiles = vec![
        TileRow { x: -3, y: 2, gtl_tile_id: 1, btl_tile_id: 0, collision: false, event_id: 0 },
        TileRow { x: 4, y: -1, gtl_tile_id: 1, btl_tile_id: 0, collision: false, event_id: 0 },
    ];
    let meta = MetadataRow { tiled_width: 24, tiled_height: 49, non_occluded_x: 688, non_occluded_y: 240 };
    let g = store_geometry(&tiles, Some(meta)).unwrap();
    assert_eq!((g.width, g.height, g.non_occluded_x, g.non_occluded_y), (24, 49, 688, 240));
    let g = store_geometry(&tiles, None).unwrap();
    assert_eq!((g.width, g.height, g.non_occluded_x, g.non_occluded_y), (8, 4, 0, 0));
    assert_eq!(store_geometry(&Vec::new(), Some(meta)).unwrap_err(), MapError::StoreError);
}

#[test]
fn stored_objects_are_grouped_by_index() {
    let rows = vec![
        ObjectRow { object_index: 0, x: 5, y: 6, btl_tile_id: 3, stack_order: 0 },
        ObjectRow { object_index: 0, x: 5, y: 6, btl_tile_id: 4, stack_order: 1 },
        ObjectRow { object_index: 2, x: 7, y: 8, btl_tile_id: 9, stack_order: 0 },
    ];
    let objs = group_objects(&rows);
    assert_eq!(objs.len(), 2);
    assert_eq!((objs[0].x, objs[0].y, objs[0].ids.clone()), (5, 6, vec![3, 4]));
    assert_eq!((objs[1].x, objs[1].y, objs[1].ids.clone()), (7, 8, vec![9]));
}

#[test]
fn render_from_store_uses_atlas() {
    let tiles = vec![TileRow { x: 0, y: 0, gtl_tile_id: 1, btl_tile_id: 0, collision: false, event_id: 0 }];
    let meta = MetadataRow { tiled_width: 2, tiled_height: 2, non_occluded_x: 0, non_occluded_y: 0 };
    let stored = StoredMap { tiles, objects: Vec::new(), metadata: Some(meta) };
    let mut gtl = Canvas::new(124, 32);
    for y in 0..32 {
        for x in 62..124 {
            gtl.put_pixel(x, y, Pixel { r: 1, g: 2, b: 3, a: 255 });
        }
    }
    let btl = Canvas::new(62, 32);
    let canvas = render_from_store(&stored, &gtl, &btl, 2).unwrap();
    assert_eq!((canvas.width, canvas.height), (128, 64));
    // stored (0, 0) is cell (1, 1): projected to (64, 32)
    assert_eq!(canvas.get_pixel(64, 32), Pixel { r: 1, g: 2, b: 3, a: 255 });
    assert_eq!(canvas.get_pixel(63, 32).a, 0);
    assert_eq!(render_from_store(&stored, &gtl, &btl, 0).unwrap_err(), MapError::InvalidData);
    let empty = StoredMap { tiles: Vec::new(), objects: Vec::new(), metadata: Some(meta) };
    assert_eq!(render_from_store(&empty, &gtl, &btl, 2).unwrap_err(), MapError::StoreError);
}

#[test]
fn parse_null_marks_missing_text() {
    assert_eq!(parse_null("null"), None);
    assert_eq!(parse_null("Null"), Some("Null".to_string()));
    assert_eq!(parse_null("ząb"), Some("ząb".to_string()));
    assert_eq!(parse_null(""), Some(String::new()));
}

#[test]
fn party_ini_db_entries() {
    let mut bytes = Vec::new();
    for i in 0..8u8 {
        let mut name = [0u8; 20];
        name[0] = b'A' + i;
        name[1] = b'x';
        name[3] = b'z';
        bytes.extend_from_slice(&name);
        bytes.extend_from_slice(&(i as u16).to_le_bytes());
        bytes.extend_from_slice(&7u16.to_le_bytes());
        bytes.extend_from_slice(&(1000u32 + i as u32).to_le_bytes());
    }
    let npcs = read_party_ini_db(&bytes).unwrap();
    assert_eq!(npcs.len(), 8);
    assert_eq!(npcs[2].name, "Cx");
    assert_eq!((npcs[2].flags, npcs[2].kind, npcs[2].value), (2, 7, 1002));
    assert_eq!(read_party_ini_db(&bytes[..223]).unwrap_err(), MapError::Io);
}

#[test]
fn monster_refs_fill_the_file() {
    let mut bytes = Vec::new();
    bytes.extend_from_slice(&99i32.to_le_bytes());
    for i in 0..2i32 {
        for v in [10 + i, 20 + i, 30 + i, 40 + i, 0, 0, 0, 0, 0] {
            bytes.extend_from_slice(&v.to_le_bytes());
        }
        bytes.extend_from_slice(&[5, 6, 0, 0, 7, 8, 0, 0, 9, 1, 0, 0]);
        bytes.extend_from_slice(&[0u8; 8]);
    }
    bytes.extend_from_slice(&[0u8; 10]);
    let refs = read_monster_ref(&bytes).unwrap();
    assert_eq!(refs.len(), 2);
    assert_eq!((refs[1].index, refs[1].file_id, refs[1].mon_id, refs[1].pos_x, refs[1].pos_y), (1, 11, 21, 31, 41));
    assert_eq!((refs[0].loot1_item_id, refs[0].loot2_item_type, refs[0].loot3_item_type), (5, 8, 1));
    assert_eq!(read_monster_ref(&bytes[..3]).unwrap_err(), MapError::Io);
}

#[test]
fn chdata_table_fields() {
    let mut bytes = vec![0u8; 84];
    bytes[..4].copy_from_slice(b"Item");
    for k in 0..16 {
        bytes[30 + 2 * k..32 + 2 * k].copy_from_slice(&(k as u16 + 1).to_le_bytes());
    }
    for k in 0..4 {
        bytes[64 + 4 * k..68 + 4 * k].copy_from_slice(&5u32.to_le_bytes());
    }
    bytes[80..84].copy_from_slice(&10u32.to_le_bytes());
    let c = read_chdata(&bytes).unwrap();
    assert_eq!(c.magic, "Item");
    assert_eq!(c.values[15], 16);
    assert_eq!(c.counts, vec![5, 5, 5, 5]);
    assert_eq!(c.total, 10);
    assert_eq!(read_chdata(&bytes[..83]).unwrap_err(), MapError::Io);
}

#[test]
fn tileset_atlas_layout() {
    let tiles: Vec<Tile> = (0..11u8).map(|i| solid_tile(Color { r: i + 1, g: 1, b: 1 })).collect();
    let atlas = plot_tileset_map(&tiles);
    assert_eq!((atlas.width, atlas.height), (620, 64));
    assert_eq!(atlas.get_pixel(31, 0).r, 1);
    assert_eq!(atlas.get_pixel(9 * 62 + 31, 0).r, 10);
    assert_eq!(atlas.get_pixel(31, 32).r, 11);
    assert_eq!(atlas.get_pixel(62 + 31, 32).a, 0);
}

#[test]
fn stored_rows_reproduce_projection() {
    let data = map_with_object(40, &[1]);
    let map = read_map_data(&data).unwrap();
    let rows = map_tile_rows(&map);
    let w = map.model.tiled_map_width;
    let h = map.model.tiled_map_height;
    assert_eq!(rows.len(), 576);
    let row = rows[30];
    assert_eq!((row.x + w / 2, row.y + h / 2), (6, 1));
    assert_eq!(
        convert_map_coords_to_image_coords(row.x + w / 2, row.y + h / 2, w + h),
        convert_map_coords_to_image_coords(6, 1, w + h)
    );
}

#[test]
fn magic_db_records() {
    let mut bytes = Vec::new();
    for i in 0..2u32 {
        for k in 0..22u32 {
            let v = if k == 0 { i } else { 100 * i + k };
            bytes.extend_from_slice(&v.to_le_bytes());
        }
    }
    let spells = read_magic_db(&bytes).unwrap();
    assert_eq!(spells.len(), 2);
    assert!(!spells[0].enabled);
    assert!(spells[1].enabled);
    assert_eq!((spells[1].id, spells[1].flag1, spells[1].mana_cost, spells[1].target_type), (1, 101, 102, 121));
    assert_eq!(read_magic_db(&bytes[..87]).unwrap_err(), MapError::InvalidData);
}

#[test]
fn party_level_db_records() {
    let mut bytes = Vec::new();
    for n in 0..8u32 {
        for b in 0..20u32 {
            bytes.extend_from_slice(&0xFFu32.to_le_bytes());
            for v in [n * 100 + b, 2, 3] {
                bytes.extend_from_slice(&v.to_le_bytes());
            }
            bytes.extend_from_slice(&4u16.to_le_bytes());
            bytes.extend_from_slice(&5u16.to_le_bytes());
            for v in [6u32, 7, 8] {
                bytes.extend_from_slice(&v.to_le_bytes());
            }
            bytes.extend_from_slice(&9u16.to_le_bytes());
            bytes.extend_from_slice(&0u16.to_le_bytes());
        }
    }
    assert_eq!(bytes.len(), 5760);
    let npcs = read_party_level_db(&bytes).unwrap();
    assert_eq!(npcs.len(), 8);
    let rec = &npcs[3].records[7];
    assert_eq!((npcs[3].npc_index, rec.level, rec.strength, rec.health_points, rec.defense), (3, 8, 307, 4, 9));
    assert_eq!(read_party_level_db(&bytes[..5759]).unwrap_err(), MapError::Io);
}

fn text_field(text: &[u8], len: usize) -> Vec<u8> {
    let mut f = text.to_vec();
    f.resize(len, 0);
    f
}

#[test]
fn event_item_db_texts() {
    let mut bytes = 1i32.to_le_bytes().to_vec();
    bytes.extend(text_field(b" Key ", 30));
    bytes.extend(text_field(b"Opens\xB9 door", 202));
    bytes.extend([7u8; 8]);
    let items = read_event_item_db(&bytes).unwrap();
    assert_eq!(items.len(), 1);
    assert_eq!(items[0].id, 0);
    assert_eq!(items[0].name, "Key");
    assert_eq!(items[0].description, "Opensą door");
    assert_eq!(read_event_item_db(&bytes[..2]).unwrap_err(), MapError::Io);
}

#[test]
fn misc_item_db_price() {
    let mut bytes = 2i32.to_le_bytes().to_vec();
    for i in 0..2i32 {
        bytes.extend(text_field(b"Rope", 30));
        bytes.extend(text_field(b"long", 202));
        bytes.extend((50 + i).to_le_bytes());
        bytes.extend([0u8; 20]);
    }
    let items = read_misc_item_db(&bytes).unwrap();
    assert_eq!(items.len(), 2);
    assert_eq!((items[1].id, items[1].name.as_str(), items[1].base_price), (1, "Rope", 51));
}

#[test]
fn heal_item_db_fields() {
    let mut bytes = 1i32.to_le_bytes().to_vec();
    bytes.extend(text_field(b"Potion", 30));
    bytes.extend(text_field(b"", 202));
    bytes.extend(30i16.to_le_bytes());
    bytes.extend([0u8; 6]);
    bytes.extend(40i16.to_le_bytes());
    bytes.extend((-5i16).to_le_bytes());
    bytes.extend([1u8, 0, 1, 0, 1, 9, 9, 9]);
    assert_eq!(bytes.len(), 4 + 252);
    let items = read_heal_item_db(&bytes).unwrap();
    let h = &items[0];
    assert_eq!((h.name.as_str(), h.description.as_str(), h.base_price, h.pz, h.pm), ("Potion", "", 30, 40, -5));
    assert_eq!((h.full_pz, h.full_pm, h.poison_heal, h.petrif_heal, h.polimorph_heal), (1, 0, 1, 0, 1));
}

#[test]
fn edit_item_db_fields() {
    let mut bytes = 1i32.to_le_bytes().to_vec();
    bytes.extend(text_field(b"Rune", 30));
    bytes.extend(text_field(b"adds fire", 202));
    bytes.extend(100i16.to_le_bytes());
    bytes.extend([0u8; 6]);
    for v in 1..=10i16 {
        bytes.extend(v.to_le_bytes());
    }
    bytes.extend([0u8; 2]);
    bytes.extend(77i16.to_le_bytes());
    bytes.extend([0u8, 3]);
    bytes.extend(2i16.to_le_bytes());
    assert_eq!(bytes.len(), 4 + 268);
    let items = read_edit_item_db(&bytes).unwrap();
    let e = &items[0];
    assert_eq!((e.index, e.name.as_str(), e.description.as_str(), e.base_price), (0, "Rune", "adds fire", 100));
    assert_eq!((e.pz, e.obr, e.item_destroying_power, e.modifies_item, e.additional_effect), (1, 10, 77, 3, 2));
}

#[test]
fn monster_db_records() {
    let mut bytes = Vec::new();
    for i in 0..2i32 {
        bytes.extend(text_field(b"Goblin", 24));
        for k in 0..34i32 {
            bytes.extend((i * 1000 + k).to_le_bytes());
        }
    }
    bytes.extend([1u8; 100]);
    let monsters = read_monster_db(&bytes);
    assert_eq!(monsters.len(), 2);
    assert_eq!((monsters[1].id, monsters[1].name.as_str()), (1, "Goblin"));
    assert_eq!((monsters[1].health_points_max, monsters[1].attack_speed), (1000, 1033));
    assert!(read_monster_db(&bytes[..159]).is_empty());
}

#[test]
fn weapons_db_records() {
    let mut bytes = 1i32.to_le_bytes().to_vec();
    bytes.extend(text_field(b"Sword ", 30));
    let mut desc = b"sharp\x000".to_vec();
    desc.resize(202, 0);
    bytes.extend(desc);
    for k in 0..26i16 {
        bytes.extend(k.to_le_bytes());
    }
    assert_eq!(bytes.len(), 4 + 284);
    let weapons = read_weapons_db(&bytes).unwrap();
    let w = &weapons[0];
    assert_eq!((w.id, w.name.as_str(), w.description.as_str()), (0, "Sword", "sharp"));
    assert_eq!((w.base_price, w.health_points, w.agility, w.durability), (0, 4, 7, 15));
    assert_eq!((w.req_strength, w.req_zw, w.req_wisdom), (18, 20, 22));
}

#[test]
fn store_db_shop_and_inn() {
    let mut bytes = 2i32.to_le_bytes().to_vec();
    bytes.extend(text_field(b"Smith", 32));
    bytes.extend(0i32.to_le_bytes());
    bytes.extend(3i16.to_le_bytes());
    let mut block = Vec::new();
    for (t, id) in [(1i16, 10i16), (4, 20)] {
        block.extend(t.to_le_bytes());
        block.extend(id.to_le_bytes());
    }
    block.resize(142, 0);
    bytes.extend(block);
    bytes.extend(text_field(b"Welcome", 512));
    bytes.extend(text_field(b"Deal", 128));
    bytes.extend(text_field(b"No", 128));
    bytes.extend(text_field(b"Inn", 32));
    bytes.extend(15i32.to_le_bytes());
    bytes.extend([9u8; 144]);
    bytes.extend(text_field(b"Rest", 512));
    bytes.extend(text_field(b"", 128));
    bytes.extend(text_field(b"", 128));
    let stores = read_store_db(&bytes).unwrap();
    assert_eq!(stores.len(), 2);
    let s = &stores[0];
    assert_eq!((s.store_name.as_str(), s.inn_night_cost, s.some_unknown_number), ("Smith", 0, 3));
    assert_eq!(s.products, vec![(0, 1, 10), (1, 4, 20)]);
    assert_eq!((s.invitation.as_str(), s.haggle_success.as_str(), s.haggle_fail.as_str()), ("Welcome", "Deal", "No"));
    let inn = &stores[1];
    assert_eq!((inn.index, inn.store_name.as_str(), inn.inn_night_cost, inn.products.len()), (1, "Inn", 15, 0));
    assert_eq!(inn.invitation, "Rest");
}

fn frame(origin_x: i32, origin_y: i32, width: i32, height: i32, start: u64) -> ImageInfo {
    ImageInfo { origin_x, origin_y, width, height, size_bytes: 2 * (width * height) as i64, image_start_position: start }
}

#[test]
fn sequence_layout_spans_all_frames() {
    let frames = vec![frame(3, 5, 10, 8, 0), frame(6, 2, 8, 12, 0)];
    let l = sequence_layout(&frames);
    assert_eq!((l.rect_x, l.rect_y, l.rect_w, l.rect_h), (6, 5, 6 + 7, 5 + 10));
    let single = sequence_layout(&vec![frame(3, 5, 10, 8, 0)]);
    assert_eq!((single.rect_w, single.rect_h), (10, 8));
}

#[test]
fn sequence_frame_drawn_at_origin_offset() {
    let mut file = vec![0u8; 4];
    for v in [0xFFFFu16, 0x001F, 0xF800, 0x07E0] {
        file.extend(v.to_le_bytes());
    }
    let frames = vec![frame(1, 1, 2, 2, 4), frame(2, 2, 1, 1, 4)];
    let l = sequence_layout(&frames);
    let sheet = render_sequence_frame(&file, &frames[0], l, false).unwrap();
    assert_eq!((sheet.width, sheet.height), (l.rect_w as u32, l.rect_h as u32));
    assert_eq!(sheet.get_pixel(1, 1), Pixel { r: 248, g: 252, b: 248, a: 255 });
    assert_eq!(sheet.get_pixel(2, 1), Pixel { r: 0, g: 0, b: 248, a: 255 });
    assert_eq!(sheet.get_pixel(2, 2), Pixel { r: 0, g: 252, b: 0, a: 255 });
    assert_eq!(sheet.get_pixel(0, 0).a, 0);
    assert_eq!(render_sequence_frame(&file[..8], &frames[0], l, false).unwrap_err(), MapError::Io);
    let bad = frame(9, 1, 2, 2, 4);
    assert_eq!(render_sequence_frame(&file, &bad, l, false).unwrap_err(), MapError::InvalidData);
}

#[test]
fn wave_ini_lines() {
    let text = b"; id,file,flag\r\n1,step.snf,null\r\n2,null,1\r\n";
    let waves = read_wave_ini(text).unwrap();
    assert_eq!(waves.len(), 2);
    assert_eq!((waves[0].id, waves[0].snf_filename.clone(), waves[0].unknown_flag.clone()), (1, Some("step.snf".to_string()), None));
    assert_eq!((waves[1].id, waves[1].snf_filename.clone(), waves[1].unknown_flag.clone()), (2, None, Some("1".to_string())));
    assert_eq!(read_wave_ini(b"x,a,b\n").unwrap_err(), MapError::InvalidData);
    assert_eq!(read_wave_ini(b"1,a\n").unwrap_err(), MapError::InvalidData);
}

#[test]
fn map_ini_line() {
    let maps = read_map_ini(b"3,-1,10,20,7,mon.ref,null,ext.ref,5\n").unwrap();
    let m = &maps[0];
    assert_eq!((m.id, m.event_id_on_camera_move, m.start_pos_x, m.start_pos_y, m.map_id), (3, -1, 10, 20, 7));
    assert_eq!((m.monsters_filename.clone(), m.npc_filename.clone(), m.extra_filename.clone()), (Some("mon.ref".to_string()), None, Some("ext.ref".to_string())));
    assert_eq!(m.cd_music_track_number, 5);
}

#[test]
fn dialog_optional_ints() {
    let dialogs = read_dialogs(b"4,,2,x,0,+9,-3\n").unwrap();
    let d = &dialogs[0];
    assert_eq!((d.id, d.previous_event_id, d.next_dialog_to_check, d.dialog_type_id), (4, None, Some(2), None));
    assert_eq!((d.dialog_owner, d.dialog_id, d.event_id), (Some(0), Some(9), Some(-3)));
    assert_eq!(parse_int("12"), Some(12));
    assert_eq!(parse_int(""), None);
    assert_eq!(parse_int("2147483648"), None);
}

#[test]
fn npc_ini_and_party_refs() {
    let npcs = read_npc_ini(b"5,npc.spr,old man\n").unwrap();
    assert_eq!((npcs[0].id, npcs[0].sprite_filename.clone(), npcs[0].description.as_str()), (5, Some("npc.spr".to_string()), "old man"));
    let refs = read_part_refs(b"1,Bob \xb9,null,2,3,4,5,6\n").unwrap();
    let r = &refs[0];
    assert_eq!((r.id, r.full_name.clone(), r.job_name.clone()), (1, Some("Bob ą".to_string()), None));
    assert_eq!((r.root_map_id, r.npc_id, r.dlg_when_not_in_party, r.dlg_when_in_party, r.ghost_face_id), (2, 3, 4, 5, 6));
}

#[test]
fn party_pgp_lines() {
    let pgps = read_party_pgps(b";comment\n7|Hello, friend|12|x\n").unwrap();
    assert_eq!(pgps.len(), 1);
    let p = &pgps[0];
    assert_eq!((p.id, p.dialog_text.clone(), p.unknown_id1, p.unknown_id2), (7, Some("Hello, friend".to_string()), Some(12), None));
}

#[test]
fn message_script_lines() {
    let text = b"  ; header\n\n3 | Beware | null |  the dark \nshort|line\nx|a|b|c\n";
    let msgs = read_messages(text).unwrap();
    assert_eq!(msgs.len(), 2);
    assert_eq!((msgs[0].id, msgs[0].line1.clone(), msgs[0].line2.clone(), msgs[0].line3.clone()),
        (3, Some("Beware".to_string()), None, Some("the dark".to_string())));
    assert_eq!((msgs[1].id, msgs[1].line1.clone()), (0, Some("a".to_string())));
}

#[test]
fn quest_script_lines() {
    let quests = read_quests(b"1|2|Find the key|null\n").unwrap();
    let q = &quests[0];
    assert_eq!((q.id, q.type_id, q.title.clone(), q.description.clone()), (1, 2, Some("Find the key".to_string()), None));
}

#[test]
fn event_npc_ref_lines() {
    let refs = read_event_npc_ref(b";x\n   \n 4 ,x, Guard \nonly,two\n").unwrap();
    assert_eq!(refs.len(), 1);
    assert_eq!((refs[0].id, refs[0].event_id, refs[0].name.as_str()), (4, 0, "Guard"));
}

#[test]
fn draw_item_lines() {
    let items = read_draw_items(b";map,x,y,item\n(2,10,-4,77)\n").unwrap();
    assert_eq!(items.len(), 1);
    assert_eq!((items[0].map_id, items[0].x_coord, items[0].y_coord, items[0].item_id), (2, 10, -4, 77));
    assert_eq!(read_draw_items(b"(2,10,x,77)\n").unwrap_err(), MapError::InvalidData);
}

#[test]
fn extra_ref_records() {
    let mut rec = vec![3u8, 0, 9];
    rec.extend(text_field(b"Chest", 32));
    rec.push(0);
    rec.extend(100i32.to_le_bytes());
    rec.extend(200i32.to_le_bytes());
    rec.push(2);
    rec.extend([0u8; 7]);
    rec.extend(1i32.to_le_bytes());
    rec.extend([5u8, 6, 0, 0, 7, 8, 0, 0]);
    rec.extend([0u8; 16]);
    rec.extend(50i32.to_le_bytes());
    rec.extend([11u8, 12, 0, 0]);
    rec.extend(3i32.to_le_bytes());
    rec.extend([0u8; 40]);
    rec.extend(21i32.to_le_bytes());
    rec.extend(22i32.to_le_bytes());
    rec.extend([0u8; 32]);
    rec.extend([1u8, 0, 0, 0]);
    assert_eq!(rec.len(), 176);
    let mut bytes = 1i32.to_le_bytes().to_vec();
    bytes.extend(rec);
    bytes.extend([0u8; 8]);
    let refs = read_extra_ref(&bytes).unwrap();
    assert_eq!(refs.len(), 1);
    let e = &refs[0];
    assert_eq!((e.id, e.number_in_file, e.ext_id, e.name.as_str(), e.object_type), (0, 3, 9, "Chest", 0));
    assert_eq!((e.x_pos, e.y_pos, e.rotation, e.closed), (100, 200, 2, 1));
    assert_eq!((e.required_item_id, e.required_item_type_id, e.required_item_id2, e.required_item_type_id2), (5, 6, 7, 8));
    assert_eq!((e.gold_amount, e.item_id, e.item_type_id, e.item_count), (50, 11, 12, 3));
    assert_eq!((e.event_id, e.message_id, e.visibility), (21, 22, 1));
}

#[test]
fn npc_ref_records() {
    let mut bytes = 1i32.to_le_bytes().to_vec();
    bytes.extend(4i32.to_le_bytes());
    bytes.extend(8i32.to_le_bytes());
    bytes.extend(text_field(b"Mira", 260));
    bytes.extend([0u8; 260]);
    for v in [1i32, 0] {
        bytes.extend(v.to_le_bytes());
    }
    bytes.extend([0u8; 4]);
    for v in 1..=12i32 {
        bytes.extend(v.to_le_bytes());
    }
    bytes.extend([0u8; 16]);
    bytes.extend(2i32.to_le_bytes());
    bytes.extend([0u8; 56]);
    bytes.extend(99i32.to_le_bytes());
    bytes.extend([0u8; 4]);
    assert_eq!(bytes.len(), 4 + 672);
    let npcs = read_npc_ref(&bytes).unwrap();
    let n = &npcs[0];
    assert_eq!((n.index, n.id, n.npc_id, n.name.as_str(), n.party_script_id), (0, 4, 8, "Mira", 1));
    assert_eq!((n.goto1_filled, n.goto4_filled, n.goto1_x, n.goto4_y), (1, 4, 5, 12));
    assert_eq!((n.looking_direction, n.dialog_id), (2, 99));
}

#[test]
fn dialogue_texts_carry_comments() {
    let text = b"; Village\n;  elder \n10|Hello there| 1 |x\nbad|a|b|c\n\n11|Bye|2|3\n; Forest\n12|Hi|0|0\n";
    let texts = read_dialogue_texts(text).unwrap();
    assert_eq!(texts.len(), 3);
    assert_eq!((texts[0].id, texts[0].text.as_str(), texts[0].comment.as_str(), texts[0].param1, texts[0].param2), (10, "Hello there", "Village | elder", 1, 0));
    assert_eq!((texts[1].id, texts[1].comment.as_str(), texts[1].param1, texts[1].param2), (11, "Village | elder", 2, 3));
    assert_eq!((texts[2].id, texts[2].comment.as_str()), (12, "Forest"));
}

#[test]
fn all_map_ini_lines() {
    let maps = read_all_map_ini(b";list\n1,cat1.map,Catacombs,cat.pgp,null,1\n2,town.map,Town,null,town.dlg,0\n").unwrap();
    assert_eq!(maps.len(), 2);
    assert_eq!((maps[0].id, maps[0].map_filename.as_str(), maps[0].map_name.as_str()), (1, "cat1.map", "Catacombs"));
    assert_eq!((maps[0].pgp_filename.clone(), maps[0].dlg_filename.clone(), maps[0].is_light), (Some("cat.pgp".to_string()), None, true));
    assert!(!maps[1].is_light);
    assert_eq!(read_all_map_ini(b"x,a,b,c,d,1\n").unwrap_err(), MapError::InvalidData);
}

#[test]
fn stored_rows_follow_diagonal_order() {
    let row = |x: i32, y: i32| TileRow { x, y, gtl_tile_id: 1, btl_tile_id: 0, collision: false, event_id: 0 };
    let rows = vec![row(0, 1), row(2, 0), row(0, 0), row(1, 1), row(0, 0)];
    assert_eq!(diagonal_order(&rows), vec![1, 2, 4, 3, 0]);
}
