use vstd::prelude::*;
use crate::bytes::{le_i16, le_i32, le_u16, le_u32, read_i16, read_i32, read_u16, read_u32, read_u8};
use crate::error::MapError;
use vstd::string::StringExecFns;

verus! {

/// One product line of a store: order, product kind and product id.
pub type StoreProduct = (i16, i16, i16);

/// A party member entry of the party ini database.
#[derive(Debug, PartialEq, Eq)]
pub struct PartyIniNpc {
    pub name: String,
    pub flags: u16,
    pub kind: u16,
    pub value: u32,
}

/// The character data table: a magic tag, sixteen values, four counts and a total.
#[derive(Debug, PartialEq, Eq)]
pub struct ChData {
    pub magic: String,
    pub values: Vec<u16>,
    pub counts: Vec<u32>,
    pub total: u32,
}

/// A monster placed on a map, with the loot it carries.
#[derive(Debug, PartialEq, Eq)]
pub struct MonsterRef {
    pub index: i32,
    pub file_id: i32,
    pub mon_id: i32,
    pub pos_x: i32,
    pub pos_y: i32,
    pub loot1_item_id: u8,
    pub loot1_item_type: u8,
    pub loot2_item_id: u8,
    pub loot2_item_type: u8,
    pub loot3_item_id: u8,
    pub loot3_item_type: u8,
}

/// An interactive object placed on a map: chest, door, sign, altar.
#[derive(Debug, PartialEq, Eq)]
pub struct ExtraRef {
    pub id: i32,
    pub number_in_file: u8,
    pub ext_id: u8,
    pub name: String,
    pub object_type: u8,
    pub x_pos: i32,
    pub y_pos: i32,
    pub rotation: u8,
    pub closed: i32,
    pub required_item_id: u8,
    pub required_item_type_id: u8,
    pub required_item_id2: u8,
    pub required_item_type_id2: u8,
    pub gold_amount: i32,
    pub item_id: u8,
    pub item_type_id: u8,
    pub item_count: i32,
    pub event_id: i32,
    pub message_id: i32,
    pub visibility: u8,
}

/// A non-player character placed on a map, with its walking route.
#[derive(Debug, PartialEq, Eq)]
pub struct NPC {
    pub index: i32,
    pub id: i32,
    pub npc_id: i32,
    pub name: String,
    pub party_script_id: i32,
    pub show_on_event: i32,
    pub goto1_filled: i32,
    pub goto2_filled: i32,
    pub goto3_filled: i32,
    pub goto4_filled: i32,
    pub goto1_x: i32,
    pub goto2_x: i32,
    pub goto3_x: i32,
    pub goto4_x: i32,
    pub goto1_y: i32,
    pub goto2_y: i32,
    pub goto3_y: i32,
    pub goto4_y: i32,
    pub looking_direction: i32,
    pub dialog_id: i32,
}

/// A monster kind and its statistics.
#[derive(Debug, PartialEq, Eq)]
pub struct Monster {
    pub id: i32,
    pub name: String,
    pub health_points_max: i32,
    pub health_points_min: i32,
    pub magic_points_max: i32,
    pub magic_points_min: i32,
    pub walk_speed: i32,
    pub to_hit_max: i32,
    pub to_hit_min: i32,
    pub to_dodge_max: i32,
    pub to_dodge_min: i32,
    pub offense_max: i32,
    pub offense_min: i32,
    pub defense_max: i32,
    pub defense_min: i32,
    pub magic_attack_max: i32,
    pub magic_attack_min: i32,
    pub is_undead: i32,
    pub has_blood: i32,
    pub ai_type: i32,
    pub exp_gain_max: i32,
    pub exp_gain_min: i32,
    pub gold_drop_max: i32,
    pub gold_drop_min: i32,
    pub detection_sight_size: i32,
    pub distance_range_size: i32,
    pub known_spell_slot1: i32,
    pub known_spell_slot2: i32,
    pub known_spell_slot3: i32,
    pub is_oversize: i32,
    pub magic_level: i32,
    pub special_attack: i32,
    pub special_attack_chance: i32,
    pub special_attack_duration: i32,
    pub boldness: i32,
    pub attack_speed: i32,
}

/// Statistics of a party member at one level.
#[derive(Debug, PartialEq, Eq)]
pub struct PartyLevelRecord {
    pub level: u32,
    pub strength: u32,
    pub constitution: u32,
    pub wisdom: u32,
    pub health_points: u16,
    pub magic_points: u16,
    pub agility: u32,
    pub attack: u32,
    pub mana_recharge: u32,
    pub defense: u16,
}

/// The level table of one party member.
#[derive(Debug, PartialEq, Eq)]
pub struct PartyLevelNpc {
    pub npc_index: usize,
    pub records: Vec<PartyLevelRecord>,
}

/// A spell of the magic database.
#[derive(Debug, PartialEq, Eq)]
pub struct MagicSpell {
    pub id: i32,
    pub enabled: bool,
    pub flag1: u32,
    pub mana_cost: u32,
    pub success_rate: u32,
    pub base_damage: u32,
    pub reserved1: u32,
    pub reserved2: u32,
    pub flag2: u32,
    pub range: u32,
    pub reserved3: u32,
    pub level_required: u32,
    pub constant1: u32,
    pub effect_value: u32,
    pub effect_type: u32,
    pub effect_modifier: u32,
    pub reserved4: u32,
    pub magic_school: u32,
    pub flag3: u32,
    pub animation_id: u32,
    pub visual_id: u32,
    pub icon_id: u32,
    pub target_type: u32,
}

/// An item that modifies other items.
#[derive(Debug, PartialEq, Eq)]
pub struct EditItem {
    pub index: i32,
    pub name: String,
    pub description: String,
    pub base_price: i16,
    pub pz: i16,
    pub pm: i16,
    pub sil: i16,
    pub zw: i16,
    pub mm: i16,
    pub tf: i16,
    pub unk: i16,
    pub trf: i16,
    pub atk: i16,
    pub obr: i16,
    pub item_destroying_power: i16,
    pub modifies_item: u8,
    pub additional_effect: i16,
}

/// A healing item.
#[derive(Debug, PartialEq, Eq)]
pub struct HealItem {
    pub id: i32,
    pub name: String,
    pub description: String,
    pub base_price: i16,
    pub pz: i16,
    pub pm: i16,
    pub full_pz: u8,
    pub full_pm: u8,
    pub poison_heal: u8,
    pub petrif_heal: u8,
    pub polimorph_heal: u8,
}

/// A miscellaneous item.
#[derive(Debug, PartialEq, Eq)]
pub struct MiscItem {
    pub id: i32,
    pub name: String,
    pub description: String,
    pub base_price: i32,
}

/// An item handed out by events.
#[derive(Debug, PartialEq, Eq)]
pub struct EventItem {
    pub id: i32,
    pub name: String,
    pub description: String,
}

/// A weapon or armour item.
#[derive(Debug, PartialEq, Eq)]
pub struct WeaponItem {
    pub id: i32,
    pub name: String,
    pub description: String,
    pub base_price: i16,
    pub health_points: i16,
    pub magic_points: i16,
    pub strength: i16,
    pub agility: i16,
    pub wisdom: i16,
    pub tf: i16,
    pub unk: i16,
    pub trf: i16,
    pub attack: i16,
    pub defense: i16,
    pub mag: i16,
    pub durability: i16,
    pub req_strength: i16,
    pub req_zw: i16,
    pub req_wisdom: i16,
}

/// A store, its products and its lines.
#[derive(Debug, PartialEq, Eq)]
pub struct Store {
    pub index: i32,
    pub store_name: String,
    pub inn_night_cost: i32,
    pub some_unknown_number: i16,
    pub products: Vec<StoreProduct>,
    pub invitation: String,
    pub haggle_success: String,
    pub haggle_fail: String,
}

/// A dialog step on a map.
#[derive(Debug, PartialEq, Eq)]
pub struct Dialog {
    pub id: i32,
    pub previous_event_id: Option<i32>,
    pub next_dialog_to_check: Option<i32>,
    pub dialog_type_id: Option<i32>,
    pub dialog_owner: Option<i32>,
    pub dialog_id: Option<i32>,
    pub event_id: Option<i32>,
}

/// A line of dialogue text.
#[derive(Debug, PartialEq, Eq)]
pub struct DialogueText {
    pub id: i32,
    pub text: String,
    pub comment: String,
    pub param1: i32,
    pub param2: i32,
}

/// An item drawn on a map.
#[derive(Debug, PartialEq, Eq)]
pub struct DrawItem {
    pub map_id: i32,
    pub x_coord: i32,
    pub y_coord: i32,
    pub item_id: i32,
}

/// An event of the event ini.
#[derive(Debug, PartialEq, Eq)]
pub struct Event {
    pub event_id: i32,
    pub previous_event_id: i32,
    pub event_type_id: i32,
    pub event_filename: Option<String>,
    pub counter: i32,
}

/// A character that appears only in events.
#[derive(Debug, PartialEq, Eq)]
pub struct EventNpcRef {
    pub id: i32,
    pub event_id: i32,
    pub name: String,
}

/// An interactive object kind of the extra ini.
#[derive(Debug, PartialEq, Eq)]
pub struct Extra {
    pub id: i32,
    pub sprite_filename: Option<String>,
    pub unknown: i32,
    pub description: Option<String>,
}

/// Per-map settings of the map ini.
#[derive(Debug, PartialEq, Eq)]
pub struct MapIni {
    pub id: i32,
    pub event_id_on_camera_move: i32,
    pub start_pos_x: i32,
    pub start_pos_y: i32,
    pub map_id: i32,
    pub monsters_filename: Option<String>,
    pub npc_filename: Option<String>,
    pub extra_filename: Option<String>,
    pub cd_music_track_number: i32,
}

/// A sign or message text of up to three lines.
#[derive(Debug, PartialEq, Eq)]
pub struct Message {
    pub id: i32,
    pub line1: Option<String>,
    pub line2: Option<String>,
    pub line3: Option<String>,
}

/// A monster's sprite and animation sequences.
#[derive(Debug, PartialEq, Eq)]
pub struct MonsterIni {
    pub id: i32,
    pub name: Option<String>,
    pub sprite_filename: Option<String>,
    pub attack: i32,
    pub hit: i32,
    pub death: i32,
    pub walking: i32,
    pub casting_magic: i32,
}

/// A character's sprite and description.
#[derive(Debug, PartialEq, Eq)]
pub struct NpcIni {
    pub id: i32,
    pub sprite_filename: Option<String>,
    pub description: String,
}

/// A party dialog text.
#[derive(Debug, PartialEq, Eq)]
pub struct PartyPgp {
    pub id: i32,
    pub dialog_text: Option<String>,
    pub unknown_id1: Option<i32>,
    pub unknown_id2: Option<i32>,
}

/// A party member's reference entry.
#[derive(Debug, PartialEq, Eq)]
pub struct PartyRef {
    pub id: i32,
    pub full_name: Option<String>,
    pub job_name: Option<String>,
    pub root_map_id: i32,
    pub npc_id: i32,
    pub dlg_when_not_in_party: i32,
    pub dlg_when_in_party: i32,
    pub ghost_face_id: i32,
}

/// A quest journal entry.
#[derive(Debug, PartialEq, Eq)]
pub struct Quest {
    pub id: i32,
    pub type_id: i32,
    pub title: Option<String>,
    pub description: Option<String>,
}

/// A sound entry of the wave ini.
#[derive(Debug, PartialEq, Eq)]
pub struct WaveIni {
    pub id: i32,
    pub snf_filename: Option<String>,
    pub unknown_flag: Option<String>,
}

/// Text that `String::from_utf8_lossy` makes of the given bytes.
pub uninterp spec fn utf8_lossy(b: Seq<u8>) -> Seq<char>;

/// Relies on `String::from_utf8_lossy`: the bytes decoded as UTF-8, with each
/// invalid sequence replaced; no bytes give no text.
#[verifier::external_body]
fn string_from_utf8_lossy(b: &[u8]) -> (r: String)
    ensures
        r@ == utf8_lossy(b@),
        b@.len() == 0 ==> r@.len() == 0,
{
    String::from_utf8_lossy(b).into_owned()
}

/// The bytes of `s` before its first zero byte (all of `s` when it has none).
pub open spec fn until_nul(s: Seq<u8>) -> Seq<u8>
    decreases s.len(),
{
    if s.len() == 0 {
        s
    } else if s[0] == 0 {
        Seq::empty()
    } else {
        seq![s[0]] + until_nul(s.drop_first())
    }
}

/// A lemma: a prefix of non-zero bytes ended by a zero byte, or by the end of
/// `s`, is what `until_nul` keeps.
pub proof fn lemma_until_nul_prefix(s: Seq<u8>, k: int)
    requires
        0 <= k <= s.len(),
        forall|i: int| 0 <= i < k ==> s[i] != 0,
        k == s.len() || s[k] == 0,
    ensures
        until_nul(s) == s.take(k),
    decreases k,
{
    if k == 0 {
        if s.len() == 0 {
            assert(s.take(0) =~= s);
        } else {
            assert(s.take(0) =~= Seq::<u8>::empty());
        }
    } else {
        let t = s.drop_first();
        assert forall|i: int| 0 <= i < k - 1 implies t[i] != 0 by {
            assert(t[i] == s[i + 1]);
        }
        if k < s.len() {
            assert(t[k - 1] == s[k]);
        }
        lemma_until_nul_prefix(t, k - 1);
        assert(s.take(k) =~= seq![s[0]] + t.take(k - 1));
    }
}

/// Reads a zero-terminated name stored in a fixed field of `len` bytes at `*pos`.
fn read_fixed_name(data: &[u8], pos: &mut u64, len: usize) -> (r: Result<String, MapError>)
    ensures
        match r {
            Ok(s) => *old(pos) + len <= data@.len() && *final(pos) == *old(pos) + len
                && s@ == utf8_lossy(until_nul(data@.subrange(*old(pos) as int, *old(pos) + len))),
            Err(e) => *old(pos) + len > data@.len() && e == MapError::Io,
        },
{
    let ghost p = *pos as int;
    let ghost d = data@;
    if *pos > data.len() as u64 || (data.len() as u64 - *pos) < len as u64 {
        return Err(MapError::Io);
    }
    let mut bytes: Vec<u8> = Vec::new();
    let mut done = false;
    let mut nul_at: usize = 0;
    let mut k: usize = 0;
    while k < len
        invariant
            d == data@,
            p == *old(pos),
            p + len <= d.len(),
            *pos == p + k,
            k <= len,
            !done ==> bytes@ == d.subrange(p, p + k),
            !done ==> forall|i: int| p <= i < p + k ==> d[i] != 0,
            done ==> nul_at < k && d[p + nul_at] == 0 && bytes@ == d.subrange(p, p + nul_at),
            done ==> forall|i: int| p <= i < p + nul_at ==> d[i] != 0,
        decreases len - k,
    {
        let b = read_u8(data, pos)?;
        if !done {
            if b == 0 {
                done = true;
                nul_at = k;
            } else {
                bytes.push(b);
                proof {
                    assert(d.subrange(p, p + k + 1) =~= d.subrange(p, p + k).push(b));
                }
            }
        }
        k = k + 1;
    }
    proof {
        let w = d.subrange(p, p + len);
        if done {
            let z = nul_at as int;
            lemma_until_nul_prefix(w, z);
            assert(w.take(z) =~= d.subrange(p, p + z));
        } else {
            lemma_until_nul_prefix(w, len as int);
            assert(w.take(len as int) =~= d.subrange(p, p + len));
        }
    }
    Ok(string_from_utf8_lossy(bytes.as_slice()))
}

/// The text "null", which marks an empty field of the game's text tables.
pub open spec fn null_text() -> Seq<char> {
    seq!['n', 'u', 'l', 'l']
}

/// Reads an optional text field: "null" stands for no text.
pub fn parse_null(s: &str) -> (r: Option<String>)
    ensures
        s@ == null_text() ==> r is None,
        s@ != null_text() ==> r is Some && r->Some_0@ == s@,
{
    if s.is_ascii() {
        let b = s.as_bytes();
        proof {
            vstd::string::is_ascii_spec_bytes(s);
        }
        if b.len() == 4 && b[0] == 0x6e && b[1] == 0x75 && b[2] == 0x6c && b[3] == 0x6c {
            proof {
                assert(s@.len() == 4);
                assert(s@ =~= null_text()) by {
                    assert(s@[0] as u8 == 0x6e);
                    assert(s@[1] as u8 == 0x75);
                    assert(s@[2] as u8 == 0x6c);
                    assert(s@[3] as u8 == 0x6c);
                    assert(vstd::utf8::is_ascii_chars(s@));
                }
            }
            return None;
        }
        proof {
            if s@ == null_text() {
                assert(b@[0] == 0x6e && b@[1] == 0x75 && b@[2] == 0x6c && b@[3] == 0x6c);
            }
        }
    } else {
        proof {
            if s@ == null_text() {
                assert(vstd::utf8::is_ascii_chars(s@));
            }
        }
    }
    Some(s.to_owned())
}

/// Number of party entries in the party ini database.
pub const PARTY_INI_ENTRIES: usize = 8;

/// Bytes of one party ini entry: a 20-byte name, two 16-bit fields and a 32-bit value.
pub const PARTY_INI_ENTRY_SIZE: usize = 28;

/// Entry `i` of the party ini database in `d` was decoded into `e`.
pub open spec fn party_ini_entry(d: Seq<u8>, i: int, e: PartyIniNpc) -> bool {
    let p = 28 * i;
    &&& e.name@ == utf8_lossy(until_nul(d.subrange(p, p + 20)))
    &&& e.flags == le_u16(d, p + 20)
    &&& e.kind == le_u16(d, p + 22)
    &&& e.value == le_u32(d, p + 24)
}

/// Decodes the party ini database: eight entries of 28 bytes each.
pub fn read_party_ini_db(data: &[u8]) -> (r: Result<Vec<PartyIniNpc>, MapError>)
    ensures
        (r is Ok) == (data@.len() >= 224),
        r is Ok ==> r->Ok_0@.len() == 8 && forall|i: int| 0 <= i < 8 ==> #[trigger] party_ini_entry(data@, i, r->Ok_0@[i]),
        r is Err ==> r->Err_0 == MapError::Io,
{
    if data.len() < 224 {
        return Err(MapError::Io);
    }
    let mut npcs: Vec<PartyIniNpc> = Vec::new();
    let mut pos: u64 = 0;
    let mut i: usize = 0;
    while i < PARTY_INI_ENTRIES
        invariant
            data@.len() >= 224,
            i <= 8,
            pos == 28 * i,
            npcs@.len() == i,
            forall|j: int| 0 <= j < i ==> #[trigger] party_ini_entry(data@, j, npcs@[j]),
        decreases 8 - i,
    {
        let name = read_fixed_name(data, &mut pos, 20)?;
        let flags = read_u16(data, &mut pos)?;
        let kind = read_u16(data, &mut pos)?;
        let value = read_u32(data, &mut pos)?;
        let ghost before = npcs@;
        npcs.push(PartyIniNpc { name, flags, kind, value });
        proof {
            assert forall|j: int| 0 <= j < i + 1 implies #[trigger] party_ini_entry(data@, j, npcs@[j]) by {
                if j < i {
                    assert(npcs@[j] == before[j]);
                }
            }
        }
        i = i + 1;
    }
    Ok(npcs)
}

/// Number of whole records of `item_size` bytes after a counter of `counter_size`
/// bytes in a file of `len` bytes, capped at the largest `i32`.
pub open spec fn records_in(len: int, counter_size: int, item_size: int) -> int {
    let n = (len - counter_size) / item_size;
    if n > i32::MAX { i32::MAX as int } else { n }
}

/// Reads the record counter of a reference file at `*pos` (when `counter_size`
/// is not 0) and returns how many whole records the file has room for, which
/// is what the readers trust over the counter.
pub fn read_mapper(data: &[u8], pos: &mut u64, counter_size: u8, property_item_size: i32) -> (r: Result<i32, MapError>)
    requires
        property_item_size > 0,
    ensures
        match r {
            Ok(n) => data@.len() >= counter_size && n == records_in(data@.len() as int, counter_size as int, property_item_size as int)
                && (counter_size > 0 ==> *old(pos) + 4 <= data@.len() && *final(pos) == *old(pos) + 4)
                && (counter_size == 0 ==> *final(pos) == *old(pos)),
            Err(e) => e == MapError::Io && (data@.len() < counter_size || counter_size > 0 && *old(pos) + 4 > data@.len()),
        },
{
    let len = data.len() as u64;
    if len < counter_size as u64 {
        return Err(MapError::Io);
    }
    let space: u64 = (len - counter_size as u64) / property_item_size as u64;
    let space_for_elements: i32 = if space > i32::MAX as u64 { i32::MAX } else { space as i32 };
    if counter_size > 0 {
        let _expected_elements = read_i32(data, pos)?;
    }
    Ok(space_for_elements)
}

/// Bytes of one placed-monster record.
pub const MONSTER_REF_SIZE: i32 = 56;

/// The placed-monster record at `p` of `d`, the `i`-th of its file, was decoded into `m`.
pub open spec fn monster_ref_at(d: Seq<u8>, p: int, i: int, m: MonsterRef) -> bool {
    &&& m.index == i
    &&& m.file_id == le_i32(d, p)
    &&& m.mon_id == le_i32(d, p + 4)
    &&& m.pos_x == le_i32(d, p + 8)
    &&& m.pos_y == le_i32(d, p + 12)
    &&& m.loot1_item_id == d[p + 36]
    &&& m.loot1_item_type == d[p + 37]
    &&& m.loot2_item_id == d[p + 40]
    &&& m.loot2_item_type == d[p + 41]
    &&& m.loot3_item_id == d[p + 44]
    &&& m.loot3_item_type == d[p + 45]
}

/// Reads one placed-monster record at `*pos`.
fn read_monster_ref_record(data: &[u8], pos: &mut u64, index: i32) -> (r: Result<MonsterRef, MapError>)
    ensures
        match r {
            Ok(m) => *old(pos) + 56 <= data@.len() && *final(pos) == *old(pos) + 56 && monster_ref_at(data@, *old(pos) as int, index as int, m),
            Err(e) => e == MapError::Io && *old(pos) + 56 > data@.len(),
        },
{
    let file_id = read_i32(data, pos)?;
    let mon_id = read_i32(data, pos)?;
    let pos_x = read_i32(data, pos)?;
    let pos_y = read_i32(data, pos)?;
    let mut k: usize = 0;
    while k < 5
        invariant
            k <= 5,
            *pos == *old(pos) + 16 + 4 * k,
            *pos <= data@.len(),
        decreases 5 - k,
    {
        let _unknown = read_i32(data, pos)?;
        k = k + 1;
    }
    let loot1_item_id = read_u8(data, pos)?;
    let loot1_item_type = read_u8(data, pos)?;
    let _pad1 = read_u8(data, pos)?;
    let _pad2 = read_u8(data, pos)?;
    let loot2_item_id = read_u8(data, pos)?;
    let loot2_item_type = read_u8(data, pos)?;
    let _pad3 = read_u8(data, pos)?;
    let _pad4 = read_u8(data, pos)?;
    let loot3_item_id = read_u8(data, pos)?;
    let loot3_item_type = read_u8(data, pos)?;
    let _pad5 = read_u8(data, pos)?;
    let _pad6 = read_u8(data, pos)?;
    let _flag = read_i32(data, pos)?;
    let _unknown = read_i32(data, pos)?;
    Ok(MonsterRef {
        index,
        file_id,
        mon_id,
        pos_x,
        pos_y,
        loot1_item_id,
        loot1_item_type,
        loot2_item_id,
        loot2_item_type,
        loot3_item_id,
        loot3_item_type,
    })
}

/// Decodes a placed-monster file: a counter, then as many 56-byte records as
/// the file has room for.
pub fn read_monster_ref(data: &[u8]) -> (r: Result<Vec<MonsterRef>, MapError>)
    ensures
        (r is Ok) == (data@.len() >= 4),
        r is Ok ==> {
            let v = r->Ok_0@;
            &&& v.len() == records_in(data@.len() as int, 4, 56)
            &&& forall|i: int| 0 <= i < v.len() ==> #[trigger] monster_ref_at(data@, 4 + 56 * i, i, v[i])
        },
        r is Err ==> r->Err_0 == MapError::Io,
{
    let mut pos: u64 = 0;
    let elements = read_mapper(data, &mut pos, 4, MONSTER_REF_SIZE)?;
    let mut refs: Vec<MonsterRef> = Vec::new();
    let mut i: i32 = 0;
    while i < elements
        invariant
            data@.len() >= 4,
            elements == records_in(data@.len() as int, 4, 56),
            0 <= i <= elements,
            pos == 4 + 56 * i,
            refs@.len() == i,
            forall|j: int| 0 <= j < i ==> #[trigger] monster_ref_at(data@, 4 + 56 * j, j, refs@[j]),
        decreases elements - i,
    {
        proof {
            assert(4 + 56 * i + 56 <= data@.len()) by (nonlinear_arith)
                requires i < elements, elements <= (data@.len() - 4) / 56, data@.len() >= 4;
        }
        let m = match read_monster_ref_record(data, &mut pos, i) {
            Ok(m) => m,
            Err(e) => {
                return Err(e);
            },
        };
        let ghost before = refs@;
        refs.push(m);
        proof {
            assert forall|j: int| 0 <= j < i + 1 implies #[trigger] monster_ref_at(data@, 4 + 56 * j, j, refs@[j]) by {
                if j < i {
                    assert(refs@[j] == before[j]);
                }
            }
        }
        i = i + 1;
    }
    Ok(refs)
}

/// The character data table `c` was decoded from `d`.
pub open spec fn chdata_of(d: Seq<u8>, c: ChData) -> bool {
    &&& c.magic@ == utf8_lossy(d.subrange(0, 4))
    &&& c.values@.len() == 16
    &&& forall|k: int| 0 <= k < 16 ==> #[trigger] c.values@[k] == le_u16(d, 30 + 2 * k)
    &&& c.counts@.len() == 4
    &&& forall|k: int| 0 <= k < 4 ==> #[trigger] c.counts@[k] == le_u32(d, 64 + 4 * k)
    &&& c.total == le_u32(d, 80)
}

/// Decodes the character data table: a 4-byte tag, sixteen 16-bit values
/// from offset 30, four 32-bit counts from offset 64 and a 32-bit total.
pub fn read_chdata(data: &[u8]) -> (r: Result<ChData, MapError>)
    ensures
        (r is Ok) == (data@.len() >= 84),
        r is Ok ==> chdata_of(data@, r->Ok_0),
        r is Err ==> r->Err_0 == MapError::Io,
{
    if data.len() < 84 {
        return Err(MapError::Io);
    }
    let mut tag: Vec<u8> = Vec::new();
    let mut k: usize = 0;
    while k < 4
        invariant
            data@.len() >= 84,
            k <= 4,
            tag@ == data@.subrange(0, k as int),
        decreases 4 - k,
    {
        tag.push(data[k]);
        proof {
            assert(data@.subrange(0, k as int + 1) =~= data@.subrange(0, k as int).push(data@[k as int]));
        }
        k = k + 1;
    }
    let magic = string_from_utf8_lossy(tag.as_slice());
    let mut pos: u64 = 30;
    let mut values: Vec<u16> = Vec::new();
    let mut k: usize = 0;
    while k < 16
        invariant
            data@.len() >= 84,
            k <= 16,
            pos == 30 + 2 * k,
            values@.len() == k,
            forall|q: int| 0 <= q < k ==> #[trigger] values@[q] == le_u16(data@, 30 + 2 * q),
        decreases 16 - k,
    {
        let v = match read_u16(data, &mut pos) {
            Ok(v) => v,
            Err(e) => {
                return Err(e);
            },
        };
        values.push(v);
        k = k + 1;
    }
    pos = 64;
    let mut counts: Vec<u32> = Vec::new();
    let mut k: usize = 0;
    while k < 4
        invariant
            data@.len() >= 84,
            k <= 4,
            pos == 64 + 4 * k,
            counts@.len() == k,
            forall|q: int| 0 <= q < k ==> #[trigger] counts@[q] == le_u32(data@, 64 + 4 * q),
        decreases 4 - k,
    {
        let v = match read_u32(data, &mut pos) {
            Ok(v) => v,
            Err(e) => {
                return Err(e);
            },
        };
        counts.push(v);
        k = k + 1;
    }
    let total = read_u32(data, &mut pos)?;
    Ok(ChData { magic, values, counts, total })
}

/// Bytes of one spell record of the magic database: 22 little-endian words.
pub const MAGIC_RECORD_SIZE: usize = 88;

/// The spell record at `p` of `d`, the `i`-th of its file, was decoded into `m`.
pub open spec fn magic_spell_at(d: Seq<u8>, p: int, i: int, m: MagicSpell) -> bool {
    &&& m.id == i
    &&& m.enabled == (le_u32(d, p) != 0)
    &&& m.flag1 == le_u32(d, p + 4)
    &&& m.mana_cost == le_u32(d, p + 8)
    &&& m.success_rate == le_u32(d, p + 12)
    &&& m.base_damage == le_u32(d, p + 16)
    &&& m.reserved1 == le_u32(d, p + 20)
    &&& m.reserved2 == le_u32(d, p + 24)
    &&& m.flag2 == le_u32(d, p + 28)
    &&& m.range == le_u32(d, p + 32)
    &&& m.reserved3 == le_u32(d, p + 36)
    &&& m.level_required == le_u32(d, p + 40)
    &&& m.constant1 == le_u32(d, p + 44)
    &&& m.effect_value == le_u32(d, p + 48)
    &&& m.effect_type == le_u32(d, p + 52)
    &&& m.effect_modifier == le_u32(d, p + 56)
    &&& m.reserved4 == le_u32(d, p + 60)
    &&& m.magic_school == le_u32(d, p + 64)
    &&& m.flag3 == le_u32(d, p + 68)
    &&& m.animation_id == le_u32(d, p + 72)
    &&& m.visual_id == le_u32(d, p + 76)
    &&& m.icon_id == le_u32(d, p + 80)
    &&& m.target_type == le_u32(d, p + 84)
}

/// Reads one spell record at `*pos`.
fn read_magic_record(data: &[u8], pos: &mut u64, id: i32) -> (r: Result<MagicSpell, MapError>)
    ensures
        match r {
            Ok(m) => *old(pos) + 88 <= data@.len() && *final(pos) == *old(pos) + 88 && magic_spell_at(data@, *old(pos) as int, id as int, m),
            Err(e) => e == MapError::Io && *old(pos) + 88 > data@.len(),
        },
{
    let enabled_word = read_u32(data, pos)?;
    let flag1 = read_u32(data, pos)?;
    let mana_cost = read_u32(data, pos)?;
    let success_rate = read_u32(data, pos)?;
    let base_damage = read_u32(data, pos)?;
    let reserved1 = read_u32(data, pos)?;
    let reserved2 = read_u32(data, pos)?;
    let flag2 = read_u32(data, pos)?;
    let range = read_u32(data, pos)?;
    let reserved3 = read_u32(data, pos)?;
    let level_required = read_u32(data, pos)?;
    let constant1 = read_u32(data, pos)?;
    let effect_value = read_u32(data, pos)?;
    let effect_type = read_u32(data, pos)?;
    let effect_modifier = read_u32(data, pos)?;
    let reserved4 = read_u32(data, pos)?;
    let magic_school = read_u32(data, pos)?;
    let flag3 = read_u32(data, pos)?;
    let animation_id = read_u32(data, pos)?;
    let visual_id = read_u32(data, pos)?;
    let icon_id = read_u32(data, pos)?;
    let target_type = read_u32(data, pos)?;
    Ok(MagicSpell {
        id,
        enabled: enabled_word != 0,
        flag1,
        mana_cost,
        success_rate,
        base_damage,
        reserved1,
        reserved2,
        flag2,
        range,
        reserved3,
        level_required,
        constant1,
        effect_value,
        effect_type,
        effect_modifier,
        reserved4,
        magic_school,
        flag3,
        animation_id,
        visual_id,
        icon_id,
        target_type,
    })
}

/// Decodes the magic database: a whole number of 88-byte spell records; any
/// other length is refused as invalid data.
pub fn read_magic_db(data: &[u8]) -> (r: Result<Vec<MagicSpell>, MapError>)
    ensures
        (r is Ok) == (data@.len() % 88 == 0 && data@.len() / 88 <= i32::MAX),
        r is Ok ==> {
            let v = r->Ok_0@;
            &&& v.len() == data@.len() / 88
            &&& forall|i: int| 0 <= i < v.len() ==> #[trigger] magic_spell_at(data@, 88 * i, i, v[i])
        },
        r is Err ==> r->Err_0 == MapError::InvalidData,
{
    if data.len() % MAGIC_RECORD_SIZE != 0 || data.len() / MAGIC_RECORD_SIZE > i32::MAX as usize {
        return Err(MapError::InvalidData);
    }
    let num_records = data.len() / MAGIC_RECORD_SIZE;
    let mut spells: Vec<MagicSpell> = Vec::new();
    let mut pos: u64 = 0;
    let mut i: usize = 0;
    while i < num_records
        invariant
            data@.len() % 88 == 0,
            num_records == data@.len() / 88,
            num_records <= i32::MAX,
            i <= num_records,
            pos == 88 * i,
            spells@.len() == i,
            forall|j: int| 0 <= j < i ==> #[trigger] magic_spell_at(data@, 88 * j, j, spells@[j]),
        decreases num_records - i,
    {
        proof {
            assert(88 * i + 88 <= data@.len()) by (nonlinear_arith)
                requires i < num_records, num_records == data@.len() / 88, data@.len() % 88 == 0;
        }
        let m = match read_magic_record(data, &mut pos, i as i32) {
            Ok(m) => m,
            Err(_) => {
                return Err(MapError::InvalidData);
            },
        };
        let ghost before = spells@;
        spells.push(m);
        proof {
            assert forall|j: int| 0 <= j < i + 1 implies #[trigger] magic_spell_at(data@, 88 * j, j, spells@[j]) by {
                if j < i {
                    assert(spells@[j] == before[j]);
                }
            }
        }
        i = i + 1;
    }
    Ok(spells)
}

/// The level record at `p` of `d`, level `level`, was decoded into `rec`.
pub open spec fn party_level_at(d: Seq<u8>, p: int, level: int, rec: PartyLevelRecord) -> bool {
    &&& rec.level == level
    &&& rec.strength == le_u32(d, p + 4)
    &&& rec.constitution == le_u32(d, p + 8)
    &&& rec.wisdom == le_u32(d, p + 12)
    &&& rec.health_points == le_u16(d, p + 16)
    &&& rec.magic_points == le_u16(d, p + 18)
    &&& rec.agility == le_u32(d, p + 20)
    &&& rec.attack == le_u32(d, p + 24)
    &&& rec.mana_recharge == le_u32(d, p + 28)
    &&& rec.defense == le_u16(d, p + 32)
}

/// Reads one 36-byte level record at `*pos`: a sentinel word, then the statistics.
fn read_level_record(data: &[u8], pos: &mut u64, level: u32) -> (r: Result<PartyLevelRecord, MapError>)
    ensures
        match r {
            Ok(rec) => *old(pos) + 36 <= data@.len() && *final(pos) == *old(pos) + 36 && party_level_at(data@, *old(pos) as int, level as int, rec),
            Err(e) => e == MapError::Io && *old(pos) + 36 > data@.len(),
        },
{
    let _sentinel = read_u32(data, pos)?;
    let strength = read_u32(data, pos)?;
    let constitution = read_u32(data, pos)?;
    let wisdom = read_u32(data, pos)?;
    let health_points = read_u16(data, pos)?;
    let magic_points = read_u16(data, pos)?;
    let agility = read_u32(data, pos)?;
    let attack = read_u32(data, pos)?;
    let mana_recharge = read_u32(data, pos)?;
    let defense = read_u16(data, pos)?;
    let _pad = read_u16(data, pos)?;
    Ok(PartyLevelRecord {
        level,
        strength,
        constitution,
        wisdom,
        health_points,
        magic_points,
        agility,
        attack,
        mana_recharge,
        defense,
    })
}

/// Decodes the party level database: for each of eight party members, twenty
/// 36-byte level records, levels 1 to 20.
pub fn read_party_level_db(data: &[u8]) -> (r: Result<Vec<PartyLevelNpc>, MapError>)
    ensures
        (r is Ok) == (data@.len() >= 5760),
        r is Ok ==> {
            let v = r->Ok_0@;
            &&& v.len() == 8
            &&& forall|n: int| 0 <= n < 8 ==> {
                &&& (#[trigger] v[n]).npc_index == n
                &&& v[n].records@.len() == 20
                &&& forall|b: int| 0 <= b < 20 ==> #[trigger] party_level_at(data@, 720 * n + 36 * b, b + 1, v[n].records@[b])
            }
        },
        r is Err ==> r->Err_0 == MapError::Io,
{
    if data.len() < 5760 {
        return Err(MapError::Io);
    }
    let mut npcs: Vec<PartyLevelNpc> = Vec::new();
    let mut pos: u64 = 0;
    let mut n: usize = 0;
    while n < 8
        invariant
            data@.len() >= 5760,
            n <= 8,
            pos == 720 * n,
            npcs@.len() == n,
            forall|k: int| 0 <= k < n ==> {
                &&& (#[trigger] npcs@[k]).npc_index == k
                &&& npcs@[k].records@.len() == 20
                &&& forall|b: int| 0 <= b < 20 ==> #[trigger] party_level_at(data@, 720 * k + 36 * b, b + 1, npcs@[k].records@[b])
            },
        decreases 8 - n,
    {
        let mut records: Vec<PartyLevelRecord> = Vec::new();
        let mut b: u32 = 0;
        while b < 20
            invariant
                data@.len() >= 5760,
                n < 8,
                b <= 20,
                pos == 720 * n + 36 * b,
                records@.len() == b,
                forall|q: int| 0 <= q < b ==> #[trigger] party_level_at(data@, 720 * n + 36 * q, q + 1, records@[q]),
            decreases 20 - b,
        {
            let rec = match read_level_record(data, &mut pos, b + 1) {
                Ok(rec) => rec,
                Err(e) => {
                    return Err(e);
                },
            };
            let ghost before = records@;
            records.push(rec);
            proof {
                assert forall|q: int| 0 <= q < b + 1 implies #[trigger] party_level_at(data@, 720 * n + 36 * q, q + 1, records@[q]) by {
                    if q < b {
                        assert(records@[q] == before[q]);
                    }
                }
            }
            b = b + 1;
        }
        let ghost before = npcs@;
        npcs.push(PartyLevelNpc { npc_index: n, records });
        proof {
            assert forall|k: int| 0 <= k < n + 1 implies {
                &&& (#[trigger] npcs@[k]).npc_index == k
                &&& npcs@[k].records@.len() == 20
                &&& forall|b: int| 0 <= b < 20 ==> #[trigger] party_level_at(data@, 720 * k + 36 * b, b + 1, npcs@[k].records@[b])
            } by {
                if k < n {
                    assert(npcs@[k] == before[k]);
                }
            }
        }
        n = n + 1;
    }
    Ok(npcs)
}

/// Largest text input decoded at once; decoding far larger input could
/// overflow the size of the decoded buffer.
pub const MAX_TEXT_BYTES: usize = 0x1000_0000;

/// Text that `Encoding::decode` of `encoding_rs` makes of the bytes, with
/// EUC-KR (`euc_kr`) or Windows-1250.
pub uninterp spec fn decoded_text(euc_kr: bool, b: Seq<u8>) -> Seq<char>;

/// Relies on `encoding_rs::Encoding::decode` with `EUC_KR` or `WINDOWS_1250`:
/// the text the bytes encode, malformed sequences replaced, which depends on
/// the encoding and the bytes alone; no bytes give no text. Decoding panics
/// only when the output size overflows `usize`, so the input is kept small.
#[verifier::external_body]
fn decode_text(euc_kr: bool, b: &[u8]) -> (r: String)
    requires
        b@.len() <= MAX_TEXT_BYTES,
    ensures
        r@ == decoded_text(euc_kr, b@),
        b@.len() == 0 ==> r@.len() == 0,
{
    let encoding = if euc_kr { encoding_rs::EUC_KR } else { encoding_rs::WINDOWS_1250 };
    encoding.decode(b).0.into_owned()
}

/// `s` with every trailing occurrence of `pat` removed, one after another.
pub open spec fn without_suffixes(s: Seq<char>, pat: Seq<char>) -> Seq<char>
    decreases s.len(),
{
    if pat.len() > 0 && s.len() >= pat.len() && s.subrange(s.len() - pat.len(), s.len() as int) == pat {
        without_suffixes(s.subrange(0, s.len() - pat.len()), pat)
    } else {
        s
    }
}

/// The one-character text holding NUL.
pub open spec fn nul_text() -> Seq<char> {
    seq!['\0']
}

/// Relies on `str::trim_end_matches` with a string pattern: every trailing
/// occurrence of the pattern removed, repeatedly; an empty pattern removes nothing.
#[verifier::external_body]
fn strip_suffixes(s: &str, pat: &str) -> (r: String)
    ensures
        r@ == without_suffixes(s@, pat@),
{
    s.trim_end_matches(pat).to_string()
}

/// A character with the Unicode `White_Space` property.
pub open spec fn is_white_space(c: char) -> bool {
    ('\u{9}' <= c <= '\u{d}') || c == ' ' || c == '\u{85}' || c == '\u{a0}' || c == '\u{1680}'
        || ('\u{2000}' <= c <= '\u{200a}') || c == '\u{2028}' || c == '\u{2029}' || c == '\u{202f}'
        || c == '\u{205f}' || c == '\u{3000}'
}

/// `s` without its leading white space.
pub open spec fn trim_start_ws(s: Seq<char>) -> Seq<char>
    decreases s.len(),
{
    if s.len() > 0 && is_white_space(s[0]) { trim_start_ws(s.drop_first()) } else { s }
}

/// `s` without its trailing white space.
pub open spec fn trim_end_ws(s: Seq<char>) -> Seq<char>
    decreases s.len(),
{
    if s.len() > 0 && is_white_space(s.last()) { trim_end_ws(s.drop_last()) } else { s }
}

/// Text that `str::trim` makes of `s`: leading and trailing white space removed.
pub open spec fn trimmed(s: Seq<char>) -> Seq<char> {
    trim_end_ws(trim_start_ws(s))
}

/// Relies on `str::trim`: leading and trailing characters with the Unicode
/// `White_Space` property removed.
#[verifier::external_body]
fn trim_text(s: &str) -> (r: String)
    ensures
        r@ == trimmed(s@),
{
    s.trim().to_string()
}

/// The text of a fixed field of `b`, in EUC-KR (`euc_kr`) or Windows-1250:
/// decoded, then stripped of trailing NULs, then trimmed.
pub open spec fn field_text(euc_kr: bool, b: Seq<u8>) -> Seq<char> {
    trimmed(without_suffixes(decoded_text(euc_kr, b), nul_text()))
}

/// Reads a fixed text field of `len` bytes at `*pos`.
fn read_text_field(data: &[u8], pos: &mut u64, len: usize, euc_kr: bool) -> (r: Result<String, MapError>)
    requires
        len <= 4096,
    ensures
        match r {
            Ok(s) => *old(pos) + len <= data@.len() && *final(pos) == *old(pos) + len
                && s@ == field_text(euc_kr, data@.subrange(*old(pos) as int, *old(pos) + len)),
            Err(e) => *old(pos) + len > data@.len() && e == MapError::Io,
        },
{
    if *pos > data.len() as u64 || (data.len() as u64 - *pos) < len as u64 {
        return Err(MapError::Io);
    }
    let start = *pos as usize;
    let n = data.len();
    let mut bytes: Vec<u8> = Vec::new();
    let mut k: usize = 0;
    while k < len
        invariant
            n == data@.len(),
            start == *old(pos),
            start + len <= data@.len(),
            k <= len,
            bytes@ == data@.subrange(start as int, start + k),
        decreases len - k,
    {
        bytes.push(data[start + k]);
        proof {
            assert(data@.subrange(start as int, start + k + 1) =~= data@.subrange(start as int, start + k).push(data@[start + k]));
        }
        k = k + 1;
    }
    *pos = *pos + len as u64;
    let decoded = decode_text(euc_kr, bytes.as_slice());
    let stripped = strip_suffixes(decoded.as_str(), "\0");
    proof {
        reveal_strlit("\0");
        assert("\0"@ =~= nul_text());
    }
    Ok(trim_text(stripped.as_str()))
}

/// Skips `n` bytes at `*pos`, which must all lie inside `data`.
fn skip_bytes(data: &[u8], pos: &mut u64, n: u64) -> (r: Result<(), MapError>)
    ensures
        match r {
            Ok(_) => *old(pos) + n <= data@.len() && *final(pos) == *old(pos) + n,
            Err(e) => *old(pos) + n > data@.len() && e == MapError::Io,
        },
{
    if *pos > data.len() as u64 || data.len() as u64 - *pos < n {
        return Err(MapError::Io);
    }
    *pos = *pos + n;
    Ok(())
}

/// Bytes of one record of the event item database.
pub const EVENT_ITEM_SIZE: usize = 240;

/// The record of the event item database at `p` of `d`, the `i`-th of its file, was decoded into `m`.
pub open spec fn event_item_at(d: Seq<u8>, p: int, i: int, m: EventItem) -> bool {
    &&& m.id == i
    &&& m.name@ == field_text(false, d.subrange(p + 0, p + 30))
    &&& m.description@ == field_text(false, d.subrange(p + 30, p + 232))
}

/// Reads one record of the event item database at `*pos`.
fn read_event_item_record(data: &[u8], pos: &mut u64, i: i32) -> (r: Result<EventItem, MapError>)
    ensures
        match r {
            Ok(m) => *old(pos) + 240 <= data@.len() && *final(pos) == *old(pos) + 240 && event_item_at(data@, *old(pos) as int, i as int, m),
            Err(e) => e == MapError::Io && *old(pos) + 240 > data@.len(),
        },
{
    let name = read_text_field(data, pos, 30, false)?;
    let description = read_text_field(data, pos, 202, false)?;
    skip_bytes(data, pos, 8)?;
    Ok(EventItem {
        id: i,
        name,
        description,
    })
}

/// Decodes the event item database: a counter, then as many 240-byte records as the file has room for.
pub fn read_event_item_db(data: &[u8]) -> (r: Result<Vec<EventItem>, MapError>)
    ensures
        (r is Ok) == (data@.len() >= 4),
        r is Ok ==> {
            let v = r->Ok_0@;
            &&& v.len() == records_in(data@.len() as int, 4, 240)
            &&& forall|i: int| 0 <= i < v.len() ==> #[trigger] event_item_at(data@, 4 + 240 * i, i, v[i])
        },
        r is Err ==> r->Err_0 == MapError::Io,
{
    let mut pos: u64 = 0;
    let elements = read_mapper(data, &mut pos, 4, 240)?;
    let mut items: Vec<EventItem> = Vec::new();
    let mut i: i32 = 0;
    while i < elements
        invariant
            data@.len() >= 4,
            elements == records_in(data@.len() as int, 4, 240),
            0 <= i <= elements,
            pos == 4 + 240 * i,
            items@.len() == i,
            forall|j: int| 0 <= j < i ==> #[trigger] event_item_at(data@, 4 + 240 * j, j, items@[j]),
        decreases elements - i,
    {
        proof {
            assert(4 + 240 * i + 240 <= data@.len()) by (nonlinear_arith)
                requires i < elements, elements <= (data@.len() - 4) / 240, data@.len() >= 4;
        }
        let m = match read_event_item_record(data, &mut pos, i) {
            Ok(m) => m,
            Err(e) => {
                return Err(e);
            },
        };
        let ghost before = items@;
        items.push(m);
        proof {
            assert forall|j: int| 0 <= j < i + 1 implies #[trigger] event_item_at(data@, 4 + 240 * j, j, items@[j]) by {
                if j < i {
                    assert(items@[j] == before[j]);
                }
            }
        }
        i = i + 1;
    }
    Ok(items)
}

/// Bytes of one record of the miscellaneous item database.
pub const MISC_ITEM_SIZE: usize = 256;

/// The record of the miscellaneous item database at `p` of `d`, the `i`-th of its file, was decoded into `m`.
pub open spec fn misc_item_at(d: Seq<u8>, p: int, i: int, m: MiscItem) -> bool {
    &&& m.id == i
    &&& m.name@ == field_text(false, d.subrange(p + 0, p + 30))
    &&& m.description@ == field_text(true, d.subrange(p + 30, p + 232))
    &&& m.base_price == le_i32(d, p + 232)
}

/// Reads one record of the miscellaneous item database at `*pos`.
fn read_misc_item_record(data: &[u8], pos: &mut u64, i: i32) -> (r: Result<MiscItem, MapError>)
    ensures
        match r {
            Ok(m) => *old(pos) + 256 <= data@.len() && *final(pos) == *old(pos) + 256 && misc_item_at(data@, *old(pos) as int, i as int, m),
            Err(e) => e == MapError::Io && *old(pos) + 256 > data@.len(),
        },
{
    let name = read_text_field(data, pos, 30, false)?;
    let description = read_text_field(data, pos, 202, true)?;
    let base_price = read_i32(data, pos)?;
    skip_bytes(data, pos, 20)?;
    Ok(MiscItem {
        id: i,
        name,
        description,
        base_price,
    })
}

/// Decodes the miscellaneous item database: a counter, then as many 256-byte records as the file has room for.
pub fn read_misc_item_db(data: &[u8]) -> (r: Result<Vec<MiscItem>, MapError>)
    ensures
        (r is Ok) == (data@.len() >= 4),
        r is Ok ==> {
            let v = r->Ok_0@;
            &&& v.len() == records_in(data@.len() as int, 4, 256)
            &&& forall|i: int| 0 <= i < v.len() ==> #[trigger] misc_item_at(data@, 4 + 256 * i, i, v[i])
        },
        r is Err ==> r->Err_0 == MapError::Io,
{
    let mut pos: u64 = 0;
    let elements = read_mapper(data, &mut pos, 4, 256)?;
    let mut items: Vec<MiscItem> = Vec::new();
    let mut i: i32 = 0;
    while i < elements
        invariant
            data@.len() >= 4,
            elements == records_in(data@.len() as int, 4, 256),
            0 <= i <= elements,
            pos == 4 + 256 * i,
            items@.len() == i,
            forall|j: int| 0 <= j < i ==> #[trigger] misc_item_at(data@, 4 + 256 * j, j, items@[j]),
        decreases elements - i,
    {
        proof {
            assert(4 + 256 * i + 256 <= data@.len()) by (nonlinear_arith)
                requires i < elements, elements <= (data@.len() - 4) / 256, data@.len() >= 4;
        }
        let m = match read_misc_item_record(data, &mut pos, i) {
            Ok(m) => m,
            Err(e) => {
                return Err(e);
            },
        };
        let ghost before = items@;
        items.push(m);
        proof {
            assert forall|j: int| 0 <= j < i + 1 implies #[trigger] misc_item_at(data@, 4 + 256 * j, j, items@[j]) by {
                if j < i {
                    assert(items@[j] == before[j]);
                }
            }
        }
        i = i + 1;
    }
    Ok(items)
}

/// Bytes of one record of the healing item database.
pub const HEAL_ITEM_SIZE: usize = 252;

/// The record of the healing item database at `p` of `d`, the `i`-th of its file, was decoded into `m`.
pub open spec fn heal_item_at(d: Seq<u8>, p: int, i: int, m: HealItem) -> bool {
    &&& m.id == i
    &&& m.name@ == field_text(false, d.subrange(p + 0, p + 30))
    &&& m.description@ == field_text(true, d.subrange(p + 30, p + 232))
    &&& m.base_price == le_i16(d, p + 232)
    &&& m.pz == le_i16(d, p + 240)
    &&& m.pm == le_i16(d, p + 242)
    &&& m.full_pz == d[p + 244]
    &&& m.full_pm == d[p + 245]
    &&& m.poison_heal == d[p + 246]
    &&& m.petrif_heal == d[p + 247]
    &&& m.polimorph_heal == d[p + 248]
}

/// Reads one record of the healing item database at `*pos`.
fn read_heal_item_record(data: &[u8], pos: &mut u64, i: i32) -> (r: Result<HealItem, MapError>)
    ensures
        match r {
            Ok(m) => *old(pos) + 252 <= data@.len() && *final(pos) == *old(pos) + 252 && heal_item_at(data@, *old(pos) as int, i as int, m),
            Err(e) => e == MapError::Io && *old(pos) + 252 > data@.len(),
        },
{
    let name = read_text_field(data, pos, 30, false)?;
    let description = read_text_field(data, pos, 202, true)?;
    let base_price = read_i16(data, pos)?;
    skip_bytes(data, pos, 6)?;
    let pz = read_i16(data, pos)?;
    let pm = read_i16(data, pos)?;
    let full_pz = read_u8(data, pos)?;
    let full_pm = read_u8(data, pos)?;
    let poison_heal = read_u8(data, pos)?;
    let petrif_heal = read_u8(data, pos)?;
    let polimorph_heal = read_u8(data, pos)?;
    skip_bytes(data, pos, 3)?;
    Ok(HealItem {
        id: i,
        name,
        description,
        base_price,
        pz,
        pm,
        full_pz,
        full_pm,
        poison_heal,
        petrif_heal,
        polimorph_heal,
    })
}

/// Decodes the healing item database: a counter, then as many 252-byte records as the file has room for.
pub fn read_heal_item_db(data: &[u8]) -> (r: Result<Vec<HealItem>, MapError>)
    ensures
        (r is Ok) == (data@.len() >= 4),
        r is Ok ==> {
            let v = r->Ok_0@;
            &&& v.len() == records_in(data@.len() as int, 4, 252)
            &&& forall|i: int| 0 <= i < v.len() ==> #[trigger] heal_item_at(data@, 4 + 252 * i, i, v[i])
        },
        r is Err ==> r->Err_0 == MapError::Io,
{
    let mut pos: u64 = 0;
    let elements = read_mapper(data, &mut pos, 4, 252)?;
    let mut items: Vec<HealItem> = Vec::new();
    let mut i: i32 = 0;
    while i < elements
        invariant
            data@.len() >= 4,
            elements == records_in(data@.len() as int, 4, 252),
            0 <= i <= elements,
            pos == 4 + 252 * i,
            items@.len() == i,
            forall|j: int| 0 <= j < i ==> #[trigger] heal_item_at(data@, 4 + 252 * j, j, items@[j]),
        decreases elements - i,
    {
        proof {
            assert(4 + 252 * i + 252 <= data@.len()) by (nonlinear_arith)
                requires i < elements, elements <= (data@.len() - 4) / 252, data@.len() >= 4;
        }
        let m = match read_heal_item_record(data, &mut pos, i) {
            Ok(m) => m,
            Err(e) => {
                return Err(e);
            },
        };
        let ghost before = items@;
        items.push(m);
        proof {
            assert forall|j: int| 0 <= j < i + 1 implies #[trigger] heal_item_at(data@, 4 + 252 * j, j, items@[j]) by {
                if j < i {
                    assert(items@[j] == before[j]);
                }
            }
        }
        i = i + 1;
    }
    Ok(items)
}

/// Bytes of one record of the item-modifier database.
pub const EDIT_ITEM_SIZE: usize = 268;

/// The record of the item-modifier database at `p` of `d`, the `i`-th of its file, was decoded into `m`.
pub open spec fn edit_item_at(d: Seq<u8>, p: int, i: int, m: EditItem) -> bool {
    &&& m.index == i
    &&& m.name@ == field_text(false, d.subrange(p + 0, p + 30))
    &&& m.description@ == field_text(false, d.subrange(p + 30, p + 232))
    &&& m.base_price == le_i16(d, p + 232)
    &&& m.pz == le_i16(d, p + 240)
    &&& m.pm == le_i16(d, p + 242)
    &&& m.sil == le_i16(d, p + 244)
    &&& m.zw == le_i16(d, p + 246)
    &&& m.mm == le_i16(d, p + 248)
    &&& m.tf == le_i16(d, p + 250)
    &&& m.unk == le_i16(d, p + 252)
    &&& m.trf == le_i16(d, p + 254)
    &&& m.atk == le_i16(d, p + 256)
    &&& m.obr == le_i16(d, p + 258)
    &&& m.item_destroying_power == le_i16(d, p + 262)
    &&& m.modifies_item == d[p + 265]
    &&& m.additional_effect == le_i16(d, p + 266)
}

/// Reads one record of the item-modifier database at `*pos`.
fn read_edit_item_record(data: &[u8], pos: &mut u64, i: i32) -> (r: Result<EditItem, MapError>)
    ensures
        match r {
            Ok(m) => *old(pos) + 268 <= data@.len() && *final(pos) == *old(pos) + 268 && edit_item_at(data@, *old(pos) as int, i as int, m),
            Err(e) => e == MapError::Io && *old(pos) + 268 > data@.len(),
        },
{
    let name = read_text_field(data, pos, 30, false)?;
    let description = read_text_field(data, pos, 202, false)?;
    let base_price = read_i16(data, pos)?;
    skip_bytes(data, pos, 6)?;
    let pz = read_i16(data, pos)?;
    let pm = read_i16(data, pos)?;
    let sil = read_i16(data, pos)?;
    let zw = read_i16(data, pos)?;
    let mm = read_i16(data, pos)?;
    let tf = read_i16(data, pos)?;
    let unk = read_i16(data, pos)?;
    let trf = read_i16(data, pos)?;
    let atk = read_i16(data, pos)?;
    let obr = read_i16(data, pos)?;
    skip_bytes(data, pos, 2)?;
    let item_destroying_power = read_i16(data, pos)?;
    skip_bytes(data, pos, 1)?;
    let modifies_item = read_u8(data, pos)?;
    let additional_effect = read_i16(data, pos)?;
    Ok(EditItem {
        index: i,
        name,
        description,
        base_price,
        pz,
        pm,
        sil,
        zw,
        mm,
        tf,
        unk,
        trf,
        atk,
        obr,
        item_destroying_power,
        modifies_item,
        additional_effect,
    })
}

/// Decodes the item-modifier database: a counter, then as many 268-byte records as the file has room for.
pub fn read_edit_item_db(data: &[u8]) -> (r: Result<Vec<EditItem>, MapError>)
    ensures
        (r is Ok) == (data@.len() >= 4),
        r is Ok ==> {
            let v = r->Ok_0@;
            &&& v.len() == records_in(data@.len() as int, 4, 268)
            &&& forall|i: int| 0 <= i < v.len() ==> #[trigger] edit_item_at(data@, 4 + 268 * i, i, v[i])
        },
        r is Err ==> r->Err_0 == MapError::Io,
{
    let mut pos: u64 = 0;
    let elements = read_mapper(data, &mut pos, 4, 268)?;
    let mut items: Vec<EditItem> = Vec::new();
    let mut i: i32 = 0;
    while i < elements
        invariant
            data@.len() >= 4,
            elements == records_in(data@.len() as int, 4, 268),
            0 <= i <= elements,
            pos == 4 + 268 * i,
            items@.len() == i,
            forall|j: int| 0 <= j < i ==> #[trigger] edit_item_at(data@, 4 + 268 * j, j, items@[j]),
        decreases elements - i,
    {
        proof {
            assert(4 + 268 * i + 268 <= data@.len()) by (nonlinear_arith)
                requires i < elements, elements <= (data@.len() - 4) / 268, data@.len() >= 4;
        }
        let m = match read_edit_item_record(data, &mut pos, i) {
            Ok(m) => m,
            Err(e) => {
                return Err(e);
            },
        };
        let ghost before = items@;
        items.push(m);
        proof {
            assert forall|j: int| 0 <= j < i + 1 implies #[trigger] edit_item_at(data@, 4 + 268 * j, j, items@[j]) by {
                if j < i {
                    assert(items@[j] == before[j]);
                }
            }
        }
        i = i + 1;
    }
    Ok(items)
}

/// Bytes of one record of the monster database.
pub const MONSTER_SIZE: usize = 160;

/// The monster record at `p` of `d`, the `i`-th of its file, was decoded into `m`.
pub open spec fn monster_at(d: Seq<u8>, p: int, i: int, m: Monster) -> bool {
    &&& m.id == i
    &&& m.name@ == field_text(true, d.subrange(p, p + 24))
    &&& m.health_points_max == le_i32(d, p + 24)
    &&& m.health_points_min == le_i32(d, p + 28)
    &&& m.magic_points_max == le_i32(d, p + 32)
    &&& m.magic_points_min == le_i32(d, p + 36)
    &&& m.walk_speed == le_i32(d, p + 40)
    &&& m.to_hit_max == le_i32(d, p + 44)
    &&& m.to_hit_min == le_i32(d, p + 48)
    &&& m.to_dodge_max == le_i32(d, p + 52)
    &&& m.to_dodge_min == le_i32(d, p + 56)
    &&& m.offense_max == le_i32(d, p + 60)
    &&& m.offense_min == le_i32(d, p + 64)
    &&& m.defense_max == le_i32(d, p + 68)
    &&& m.defense_min == le_i32(d, p + 72)
    &&& m.magic_attack_max == le_i32(d, p + 76)
    &&& m.magic_attack_min == le_i32(d, p + 80)
    &&& m.is_undead == le_i32(d, p + 84)
    &&& m.has_blood == le_i32(d, p + 88)
    &&& m.ai_type == le_i32(d, p + 92)
    &&& m.exp_gain_max == le_i32(d, p + 96)
    &&& m.exp_gain_min == le_i32(d, p + 100)
    &&& m.gold_drop_max == le_i32(d, p + 104)
    &&& m.gold_drop_min == le_i32(d, p + 108)
    &&& m.detection_sight_size == le_i32(d, p + 112)
    &&& m.distance_range_size == le_i32(d, p + 116)
    &&& m.known_spell_slot1 == le_i32(d, p + 120)
    &&& m.known_spell_slot2 == le_i32(d, p + 124)
    &&& m.known_spell_slot3 == le_i32(d, p + 128)
    &&& m.is_oversize == le_i32(d, p + 132)
    &&& m.magic_level == le_i32(d, p + 136)
    &&& m.special_attack == le_i32(d, p + 140)
    &&& m.special_attack_chance == le_i32(d, p + 144)
    &&& m.special_attack_duration == le_i32(d, p + 148)
    &&& m.boldness == le_i32(d, p + 152)
    &&& m.attack_speed == le_i32(d, p + 156)
}

/// Reads one monster record at `*pos`: an EUC-KR name of 24 bytes and 34 statistics.
fn read_monster_record(data: &[u8], pos: &mut u64, i: i32) -> (r: Result<Monster, MapError>)
    ensures
        match r {
            Ok(m) => *old(pos) + 160 <= data@.len() && *final(pos) == *old(pos) + 160 && monster_at(data@, *old(pos) as int, i as int, m),
            Err(e) => e == MapError::Io && *old(pos) + 160 > data@.len(),
        },
{
    let name = read_text_field(data, pos, 24, true)?;
    let health_points_max = read_i32(data, pos)?;
    let health_points_min = read_i32(data, pos)?;
    let magic_points_max = read_i32(data, pos)?;
    let magic_points_min = read_i32(data, pos)?;
    let walk_speed = read_i32(data, pos)?;
    let to_hit_max = read_i32(data, pos)?;
    let to_hit_min = read_i32(data, pos)?;
    let to_dodge_max = read_i32(data, pos)?;
    let to_dodge_min = read_i32(data, pos)?;
    let offense_max = read_i32(data, pos)?;
    let offense_min = read_i32(data, pos)?;
    let defense_max = read_i32(data, pos)?;
    let defense_min = read_i32(data, pos)?;
    let magic_attack_max = read_i32(data, pos)?;
    let magic_attack_min = read_i32(data, pos)?;
    let is_undead = read_i32(data, pos)?;
    let has_blood = read_i32(data, pos)?;
    let ai_type = read_i32(data, pos)?;
    let exp_gain_max = read_i32(data, pos)?;
    let exp_gain_min = read_i32(data, pos)?;
    let gold_drop_max = read_i32(data, pos)?;
    let gold_drop_min = read_i32(data, pos)?;
    let detection_sight_size = read_i32(data, pos)?;
    let distance_range_size = read_i32(data, pos)?;
    let known_spell_slot1 = read_i32(data, pos)?;
    let known_spell_slot2 = read_i32(data, pos)?;
    let known_spell_slot3 = read_i32(data, pos)?;
    let is_oversize = read_i32(data, pos)?;
    let magic_level = read_i32(data, pos)?;
    let special_attack = read_i32(data, pos)?;
    let special_attack_chance = read_i32(data, pos)?;
    let special_attack_duration = read_i32(data, pos)?;
    let boldness = read_i32(data, pos)?;
    let attack_speed = read_i32(data, pos)?;
    Ok(Monster {
        id: i,
        name,
        health_points_max,
        health_points_min,
        magic_points_max,
        magic_points_min,
        walk_speed,
        to_hit_max,
        to_hit_min,
        to_dodge_max,
        to_dodge_min,
        offense_max,
        offense_min,
        defense_max,
        defense_min,
        magic_attack_max,
        magic_attack_min,
        is_undead,
        has_blood,
        ai_type,
        exp_gain_max,
        exp_gain_min,
        gold_drop_max,
        gold_drop_min,
        detection_sight_size,
        distance_range_size,
        known_spell_slot1,
        known_spell_slot2,
        known_spell_slot3,
        is_oversize,
        magic_level,
        special_attack,
        special_attack_chance,
        special_attack_duration,
        boldness,
        attack_speed,
    })
}

/// Decodes the monster database: as many 160-byte records as the file has room for, with no counter.
pub fn read_monster_db(data: &[u8]) -> (r: Vec<Monster>)
    ensures
        r@.len() == records_in(data@.len() as int, 0, 160),
        forall|i: int| 0 <= i < r@.len() ==> #[trigger] monster_at(data@, 160 * i, i, r@[i]),
{
    let mut pos: u64 = 0;
    let elements = match read_mapper(data, &mut pos, 0, 160) {
        Ok(n) => n,
        Err(_) => 0,
    };
    let mut monsters: Vec<Monster> = Vec::new();
    let mut i: i32 = 0;
    while i < elements
        invariant
            elements == records_in(data@.len() as int, 0, 160),
            0 <= i <= elements,
            pos == 160 * i,
            monsters@.len() == i,
            forall|j: int| 0 <= j < i ==> #[trigger] monster_at(data@, 160 * j, j, monsters@[j]),
        decreases elements - i,
    {
        proof {
            assert(160 * i + 160 <= data@.len()) by (nonlinear_arith)
                requires i < elements, elements <= data@.len() / 160;
        }
        let m = match read_monster_record(data, &mut pos, i) {
            Ok(m) => m,
            Err(_) => {
                proof {
                    assert(false);
                }
                return monsters;
            },
        };
        let ghost before = monsters@;
        monsters.push(m);
        proof {
            assert forall|j: int| 0 <= j < i + 1 implies #[trigger] monster_at(data@, 160 * j, j, monsters@[j]) by {
                if j < i {
                    assert(monsters@[j] == before[j]);
                }
            }
        }
        i = i + 1;
    }
    monsters
}

/// The two-character text NUL followed by the digit zero.
pub open spec fn nul_zero_text() -> Seq<char> {
    seq!['\0', '0']
}

/// Reads the 202-byte Windows-1250 description of a weapon record: decoded,
/// stripped of trailing NULs, then of trailing NUL-zero pairs, then trimmed.
fn read_weapon_description(data: &[u8], pos: &mut u64) -> (r: Result<String, MapError>)
    ensures
        match r {
            Ok(s) => *old(pos) + 202 <= data@.len() && *final(pos) == *old(pos) + 202
                && s@ == trimmed(without_suffixes(without_suffixes(decoded_text(false, data@.subrange(*old(pos) as int, *old(pos) + 202)), nul_text()), nul_zero_text())),
            Err(e) => *old(pos) + 202 > data@.len() && e == MapError::Io,
        },
{
    if *pos > data.len() as u64 || (data.len() as u64 - *pos) < 202 {
        return Err(MapError::Io);
    }
    let start = *pos as usize;
    let n = data.len();
    let mut bytes: Vec<u8> = Vec::new();
    let mut k: usize = 0;
    while k < 202
        invariant
            n == data@.len(),
            start == *old(pos),
            start + 202 <= data@.len(),
            k <= 202,
            bytes@ == data@.subrange(start as int, start + k),
        decreases 202 - k,
    {
        bytes.push(data[start + k]);
        proof {
            assert(data@.subrange(start as int, start + k + 1) =~= data@.subrange(start as int, start + k).push(data@[start + k]));
        }
        k = k + 1;
    }
    *pos = *pos + 202;
    let decoded = decode_text(false, bytes.as_slice());
    let stripped = strip_suffixes(decoded.as_str(), "\0");
    let stripped = strip_suffixes(stripped.as_str(), "\00");
    proof {
        reveal_strlit("\0");
        reveal_strlit("\00");
        assert("\0"@ =~= nul_text());
        assert("\00"@ =~= nul_zero_text());
    }
    Ok(trim_text(stripped.as_str()))
}

/// Bytes of one record of the weapon database.
pub const WEAPON_ITEM_SIZE: usize = 284;

/// The weapon record at `p` of `d`, the `i`-th of its file, was decoded into `m`.
pub open spec fn weapon_item_at(d: Seq<u8>, p: int, i: int, m: WeaponItem) -> bool {
    &&& m.id == i
    &&& m.name@ == field_text(false, d.subrange(p, p + 30))
    &&& m.description@ == trimmed(without_suffixes(without_suffixes(decoded_text(false, d.subrange(p + 30, p + 232)), nul_text()), nul_zero_text()))
    &&& m.base_price == le_i16(d, p + 232)
    &&& m.health_points == le_i16(d, p + 240)
    &&& m.magic_points == le_i16(d, p + 242)
    &&& m.strength == le_i16(d, p + 244)
    &&& m.agility == le_i16(d, p + 246)
    &&& m.wisdom == le_i16(d, p + 248)
    &&& m.tf == le_i16(d, p + 250)
    &&& m.unk == le_i16(d, p + 252)
    &&& m.trf == le_i16(d, p + 254)
    &&& m.attack == le_i16(d, p + 256)
    &&& m.defense == le_i16(d, p + 258)
    &&& m.mag == le_i16(d, p + 260)
    &&& m.durability == le_i16(d, p + 262)
    &&& m.req_strength == le_i16(d, p + 268)
    &&& m.req_zw == le_i16(d, p + 272)
    &&& m.req_wisdom == le_i16(d, p + 276)
}

/// Reads one weapon record at `*pos`.
fn read_weapon_record(data: &[u8], pos: &mut u64, i: i32) -> (r: Result<WeaponItem, MapError>)
    ensures
        match r {
            Ok(m) => *old(pos) + 284 <= data@.len() && *final(pos) == *old(pos) + 284 && weapon_item_at(data@, *old(pos) as int, i as int, m),
            Err(e) => e == MapError::Io && *old(pos) + 284 > data@.len(),
        },
{
    let name = read_text_field(data, pos, 30, false)?;
    let description = read_weapon_description(data, pos)?;
    let base_price = read_i16(data, pos)?;
    let _unknown = read_i16(data, pos)?;
    let _unknown = read_i16(data, pos)?;
    let _unknown = read_i16(data, pos)?;
    let health_points = read_i16(data, pos)?;
    let magic_points = read_i16(data, pos)?;
    let strength = read_i16(data, pos)?;
    let agility = read_i16(data, pos)?;
    let wisdom = read_i16(data, pos)?;
    let tf = read_i16(data, pos)?;
    let unk = read_i16(data, pos)?;
    let trf = read_i16(data, pos)?;
    let attack = read_i16(data, pos)?;
    let defense = read_i16(data, pos)?;
    let mag = read_i16(data, pos)?;
    let durability = read_i16(data, pos)?;
    let _unknown = read_i16(data, pos)?;
    let _unknown = read_i16(data, pos)?;
    let req_strength = read_i16(data, pos)?;
    let _unknown = read_i16(data, pos)?;
    let req_zw = read_i16(data, pos)?;
    let _unknown = read_i16(data, pos)?;
    let req_wisdom = read_i16(data, pos)?;
    let _unknown = read_i16(data, pos)?;
    let _unknown = read_i16(data, pos)?;
    let _unknown = read_i16(data, pos)?;
    Ok(WeaponItem {
        id: i,
        name,
        description,
        base_price,
        health_points,
        magic_points,
        strength,
        agility,
        wisdom,
        tf,
        unk,
        trf,
        attack,
        defense,
        mag,
        durability,
        req_strength,
        req_zw,
        req_wisdom,
    })
}

/// Decodes the weapon database: a counter, then as many 284-byte records as the file has room for.
pub fn read_weapons_db(data: &[u8]) -> (r: Result<Vec<WeaponItem>, MapError>)
    ensures
        (r is Ok) == (data@.len() >= 4),
        r is Ok ==> {
            let v = r->Ok_0@;
            &&& v.len() == records_in(data@.len() as int, 4, 284)
            &&& forall|i: int| 0 <= i < v.len() ==> #[trigger] weapon_item_at(data@, 4 + 284 * i, i, v[i])
        },
        r is Err ==> r->Err_0 == MapError::Io,
{
    let mut pos: u64 = 0;
    let elements = read_mapper(data, &mut pos, 4, 284)?;
    let mut items: Vec<WeaponItem> = Vec::new();
    let mut i: i32 = 0;
    while i < elements
        invariant
            data@.len() >= 4,
            elements == records_in(data@.len() as int, 4, 284),
            0 <= i <= elements,
            pos == 4 + 284 * i,
            items@.len() == i,
            forall|j: int| 0 <= j < i ==> #[trigger] weapon_item_at(data@, 4 + 284 * j, j, items@[j]),
        decreases elements - i,
    {
        proof {
            assert(4 + 284 * i + 284 <= data@.len()) by (nonlinear_arith)
                requires i < elements, elements <= (data@.len() - 4) / 284, data@.len() >= 4;
        }
        let m = match read_weapon_record(data, &mut pos, i) {
            Ok(m) => m,
            Err(e) => {
                return Err(e);
            },
        };
        let ghost before = items@;
        items.push(m);
        proof {
            assert forall|j: int| 0 <= j < i + 1 implies #[trigger] weapon_item_at(data@, 4 + 284 * j, j, items@[j]) by {
                if j < i {
                    assert(items@[j] == before[j]);
                }
            }
        }
        i = i + 1;
    }
    Ok(items)
}

/// Largest number of products a store's product block holds.
pub const STORE_PRODUCT_SLOTS: i16 = 35;

/// Products listed in the product block at `q`, from slot `k` on: each slot is a
/// product kind and id, and a kind of 0 ends the list.
pub open spec fn products_from(d: Seq<u8>, q: int, k: int) -> Seq<StoreProduct>
    decreases 35 - k,
{
    if k >= 35 || k < 0 || le_i16(d, q + 4 * k) == 0 {
        Seq::empty()
    } else {
        seq![(k as i16, le_i16(d, q + 4 * k) as i16, le_i16(d, q + 4 * k + 2) as i16)] + products_from(d, q, k + 1)
    }
}

/// The store record at `p` of `d`, the `i`-th of its file, was decoded into `m`.
/// An inn (positive night cost) has no product block; other stores have a
/// 16-bit number and the product block instead.
pub open spec fn store_at(d: Seq<u8>, p: int, i: int, m: Store) -> bool {
    &&& m.index == i
    &&& m.store_name@ == field_text(false, d.subrange(p, p + 32))
    &&& m.inn_night_cost == le_i32(d, p + 32)
    &&& m.inn_night_cost > 0 ==> m.some_unknown_number == 0 && m.products@.len() == 0
    &&& m.inn_night_cost <= 0 ==> m.some_unknown_number == le_i16(d, p + 36) && m.products@ == products_from(d, p + 38, 0)
    &&& m.invitation@ == field_text(false, d.subrange(p + 180, p + 692))
    &&& m.haggle_success@ == field_text(false, d.subrange(p + 692, p + 820))
    &&& m.haggle_fail@ == field_text(false, d.subrange(p + 820, p + 948))
}

/// Reads the product block at `q`, which lies inside `data`.
fn read_products(data: &[u8], q: u64) -> (r: Vec<StoreProduct>)
    requires
        q + 142 <= data@.len(),
    ensures
        r@ == products_from(data@, q as int, 0),
{
    let n = data.len();
    let mut products: Vec<StoreProduct> = Vec::new();
    let mut k: i16 = 0;
    while k < STORE_PRODUCT_SLOTS
        invariant
            n == data@.len(),
            q + 142 <= data@.len(),
            0 <= k <= 35,
            products@ + products_from(data@, q as int, k as int) == products_from(data@, q as int, 0),
        decreases 35 - k,
    {
        let mut pos: u64 = q + 4 * k as u64;
        let item_type = match read_i16(data, &mut pos) {
            Ok(v) => v,
            Err(_) => {
                proof {
                    assert(false);
                }
                0
            },
        };
        if item_type == 0 {
            proof {
                assert(products_from(data@, q as int, k as int) =~= Seq::<StoreProduct>::empty());
                assert(products@ + Seq::<StoreProduct>::empty() =~= products@);
            }
            return products;
        }
        let item_id = match read_i16(data, &mut pos) {
            Ok(v) => v,
            Err(_) => {
                proof {
                    assert(false);
                }
                0
            },
        };
        let ghost before = products@;
        products.push((k, item_type, item_id));
        proof {
            let rest = products_from(data@, q as int, k as int + 1);
            assert(products_from(data@, q as int, k as int) == seq![(k, item_type, item_id)] + rest);
            assert(products@ + rest =~= before + (seq![(k, item_type, item_id)] + rest));
        }
        k = k + 1;
    }
    proof {
        assert(products_from(data@, q as int, 35) =~= Seq::<StoreProduct>::empty());
        assert(products@ + Seq::<StoreProduct>::empty() =~= products@);
    }
    products
}

/// Reads one store record at `*pos`.
fn read_store_record(data: &[u8], pos: &mut u64, i: i32) -> (r: Result<Store, MapError>)
    ensures
        match r {
            Ok(m) => *old(pos) + 948 <= data@.len() && *final(pos) == *old(pos) + 948 && store_at(data@, *old(pos) as int, i as int, m),
            Err(e) => e == MapError::Io && *old(pos) + 948 > data@.len(),
        },
{
    if *pos > data.len() as u64 || data.len() as u64 - *pos < 948 {
        return Err(MapError::Io);
    }
    let store_name = read_text_field(data, pos, 32, false)?;
    let inn_night_cost = read_i32(data, pos)?;
    let mut some_unknown_number: i16 = 0;
    let mut products: Vec<StoreProduct> = Vec::new();
    if inn_night_cost > 0 {
        skip_bytes(data, pos, 144)?;
    } else {
        some_unknown_number = read_i16(data, pos)?;
        products = read_products(data, *pos);
        skip_bytes(data, pos, 142)?;
    }
    let invitation = read_text_field(data, pos, 512, false)?;
    let haggle_success = read_text_field(data, pos, 128, false)?;
    let haggle_fail = read_text_field(data, pos, 128, false)?;
    Ok(Store {
        index: i,
        store_name,
        inn_night_cost,
        some_unknown_number,
        products,
        invitation,
        haggle_success,
        haggle_fail,
    })
}

/// Decodes the store database: a counter, then as many 948-byte store records as the file has room for.
pub fn read_store_db(data: &[u8]) -> (r: Result<Vec<Store>, MapError>)
    ensures
        (r is Ok) == (data@.len() >= 4),
        r is Ok ==> {
            let v = r->Ok_0@;
            &&& v.len() == records_in(data@.len() as int, 4, 948)
            &&& forall|i: int| 0 <= i < v.len() ==> #[trigger] store_at(data@, 4 + 948 * i, i, v[i])
        },
        r is Err ==> r->Err_0 == MapError::Io,
{
    let mut pos: u64 = 0;
    let elements = read_mapper(data, &mut pos, 4, 948)?;
    let mut stores: Vec<Store> = Vec::new();
    let mut i: i32 = 0;
    while i < elements
        invariant
            data@.len() >= 4,
            elements == records_in(data@.len() as int, 4, 948),
            0 <= i <= elements,
            pos == 4 + 948 * i,
            stores@.len() == i,
            forall|j: int| 0 <= j < i ==> #[trigger] store_at(data@, 4 + 948 * j, j, stores@[j]),
        decreases elements - i,
    {
        proof {
            assert(4 + 948 * i + 948 <= data@.len()) by (nonlinear_arith)
                requires i < elements, elements <= (data@.len() - 4) / 948, data@.len() >= 4;
        }
        let m = match read_store_record(data, &mut pos, i) {
            Ok(m) => m,
            Err(e) => {
                return Err(e);
            },
        };
        let ghost before = stores@;
        stores.push(m);
        proof {
            assert forall|j: int| 0 <= j < i + 1 implies #[trigger] store_at(data@, 4 + 948 * j, j, stores@[j]) by {
                if j < i {
                    assert(stores@[j] == before[j]);
                }
            }
        }
        i = i + 1;
    }
    Ok(stores)
}

/// The texts of a sequence of strings.
pub open spec fn texts_of(v: Seq<String>) -> Seq<Seq<char>> {
    v.map_values(|t: String| t@)
}

/// `l` without one trailing carriage return.
pub open spec fn without_cr(l: Seq<char>) -> Seq<char> {
    if l.len() > 0 && l.last() == '\r' { l.drop_last() } else { l }
}

/// The lines of a text that `str::lines` yields: the parts between line feeds,
/// a carriage return before a line feed dropped; no line after a final line feed.
pub open spec fn lines_of(s: Seq<char>) -> Seq<Seq<char>> {
    let parts = fields_by(s, '\n');
    let n = parts.len();
    let done = parts.take(n - 1).map_values(|l: Seq<char>| without_cr(l));
    if parts[n - 1].len() == 0 { done } else { done.push(parts[n - 1]) }
}

/// Relies on `str::lines`: the text split at each line feed or carriage return
/// and line feed, the final line ending optional.
#[verifier::external_body]
fn text_lines(s: &str) -> (r: Vec<String>)
    ensures
        texts_of(r@) == lines_of(s@),
{
    let mut lines = Vec::new();
    for line in s.lines() {
        lines.push(line.to_string());
    }
    lines
}

/// The parts of `s` between occurrences of `sep`: one more part than there are separators.
pub open spec fn fields_by(s: Seq<char>, sep: char) -> Seq<Seq<char>>
    decreases s.len(),
{
    if s.len() == 0 {
        seq![Seq::empty()]
    } else {
        let rest = fields_by(s.drop_first(), sep);
        if s[0] == sep {
            seq![Seq::empty()] + rest
        } else {
            rest.update(0, seq![s[0]] + rest[0])
        }
    }
}

/// Relies on `str::split` with a character pattern: the parts between
/// occurrences of the character, in order, including empty ones.
#[verifier::external_body]
fn split_fields(s: &str, sep: char) -> (r: Vec<String>)
    ensures
        texts_of(r@) == fields_by(s@, sep),
{
    let mut fields = Vec::new();
    for field in s.split(sep) {
        fields.push(field.to_string());
    }
    fields
}

/// Every character of `s` is an ASCII digit, and there is one.
pub open spec fn all_digits(s: Seq<char>) -> bool {
    s.len() > 0 && forall|i: int| 0 <= i < s.len() ==> '0' <= #[trigger] s[i] <= '9'
}

/// Value of a run of decimal digits.
pub open spec fn digits_value(s: Seq<char>) -> int
    decreases s.len(),
{
    if s.len() == 0 {
        0
    } else {
        digits_value(s.drop_last()) * 10 + (s.last() as int - '0' as int)
    }
}

/// The `i32` that `str::parse` reads from `s`: an optional sign, then decimal
/// digits, and a value within range; nothing for any other text.
pub open spec fn parsed_i32(s: Seq<char>) -> Option<int> {
    let signed = s.len() > 0 && (s[0] == '+' || s[0] == '-');
    let body = if signed { s.drop_first() } else { s };
    let v = if signed && s[0] == '-' { -digits_value(body) } else { digits_value(body) };
    if all_digits(body) && i32::MIN <= v <= i32::MAX { Some(v) } else { None }
}

/// Relies on `str::parse::<i32>`: an optional `+` or `-` followed by one or more
/// ASCII digits whose value fits; any other text is refused.
#[verifier::external_body]
fn parse_decimal_i32(s: &str) -> (r: Option<i32>)
    ensures
        match parsed_i32(s@) {
            Some(v) => r == Some(v as i32),
            None => r is None,
        },
{
    s.parse::<i32>().ok()
}

/// Relies on `str::starts_with` with the pattern `";"`: whether the text's first character is a semicolon.
#[verifier::external_body]
fn starts_with_semicolon(s: &str) -> (r: bool)
    ensures
        r == (s@.len() > 0 && s@[0] == ';'),
{
    s.starts_with(";")
}

/// Reads an optional integer field: the integer, or nothing when the text is not one.
pub fn parse_int(s: &str) -> (r: Option<i32>)
    ensures
        match parsed_i32(s@) {
            Some(v) => r == Some(v as i32),
            None => r is None,
        },
{
    parse_decimal_i32(s)
}

/// The lines of a table that hold data: those that do not start with a semicolon.
pub open spec fn data_lines(lines: Seq<Seq<char>>) -> Seq<Seq<char>>
    decreases lines.len(),
{
    if lines.len() == 0 {
        Seq::empty()
    } else {
        let prev = data_lines(lines.drop_last());
        let l = lines.last();
        if l.len() > 0 && l[0] == ';' { prev } else { prev.push(l) }
    }
}

/// The data lines of a text table file in EUC-KR (`euc_kr`) or Windows-1250.
pub open spec fn table_rows(euc_kr: bool, d: Seq<u8>) -> Seq<Seq<char>> {
    data_lines(lines_of(decoded_text(euc_kr, d)))
}

/// Decodes a text table file and returns the fields, split at `sep`, of each data line.
fn read_table(data: &[u8], euc_kr: bool, sep: char) -> (r: Result<Vec<Vec<String>>, MapError>)
    ensures
        (r is Ok) == (data@.len() <= MAX_TEXT_BYTES),
        r is Ok ==> {
            let rows = table_rows(euc_kr, data@);
            &&& r->Ok_0@.len() == rows.len()
            &&& forall|i: int| 0 <= i < rows.len() ==> #[trigger] texts_of(r->Ok_0@[i]@) == fields_by(rows[i], sep)
        },
        r is Err ==> r->Err_0 == MapError::InvalidData,
{
    if data.len() > MAX_TEXT_BYTES {
        return Err(MapError::InvalidData);
    }
    let text = decode_text(euc_kr, data);
    let lines = text_lines(text.as_str());
    let ghost all = texts_of(lines@);
    let mut rows: Vec<Vec<String>> = Vec::new();
    let mut i: usize = 0;
    while i < lines.len()
        invariant
            all == texts_of(lines@),
            all == lines_of(decoded_text(euc_kr, data@)),
            i <= lines@.len(),
            rows@.len() == data_lines(all.take(i as int)).len(),
            forall|k: int| 0 <= k < rows@.len() ==> #[trigger] texts_of(rows@[k]@) == fields_by(data_lines(all.take(i as int))[k], sep),
        decreases lines@.len() - i,
    {
        let line = &lines[i];
        proof {
            assert(all.take(i as int + 1).drop_last() =~= all.take(i as int));
            assert(all.take(i as int + 1).last() == line@);
        }
        if !starts_with_semicolon(line.as_str()) {
            let fields = split_fields(line.as_str(), sep);
            let ghost before = rows@;
            rows.push(fields);
            proof {
                assert forall|k: int| 0 <= k < rows@.len() implies #[trigger] texts_of(rows@[k]@) == fields_by(data_lines(all.take(i as int + 1))[k], sep) by {
                    if k < before.len() {
                        assert(rows@[k] == before[k]);
                    }
                }
            }
        }
        i = i + 1;
    }
    proof {
        assert(all.take(lines@.len() as int) =~= all);
    }
    Ok(rows)
}

/// Field `k` of `f` holds an optional text: `null` stands for none.
pub open spec fn null_field(f: Seq<Seq<char>>, k: int, v: Option<String>) -> bool {
    &&& (f[k] == null_text()) == (v is None)
    &&& v is Some ==> v->Some_0@ == f[k]
}

/// Field `k` of `f` holds an optional integer: text that is not one stands for none.
pub open spec fn opt_int_field(f: Seq<Seq<char>>, k: int, v: Option<i32>) -> bool {
    &&& (parsed_i32(f[k]) is Some) == (v is Some)
    &&& v is Some ==> v->Some_0 == parsed_i32(f[k])->Some_0
}

/// Reads a required integer field.
fn int_field(fields: &Vec<String>, k: usize) -> (r: Result<i32, MapError>)
    requires
        k < fields@.len(),
    ensures
        match parsed_i32(fields@[k as int]@) {
            Some(v) => r == Ok::<i32, MapError>(v as i32),
            None => r == Err::<i32, MapError>(MapError::InvalidData),
        },
{
    match parse_decimal_i32(fields[k].as_str()) {
        Some(v) => Ok(v),
        None => Err(MapError::InvalidData),
    }
}

/// A line of the sound table with fields `f` can be read: enough fields, and integers where they are due.
pub open spec fn wave_ini_parses(f: Seq<Seq<char>>) -> bool {
    f.len() >= 3 && parsed_i32(f[0]) is Some
}

/// `m` was read from a line of the sound table with fields `f`.
pub open spec fn wave_ini_of(f: Seq<Seq<char>>, m: WaveIni) -> bool {
    &&& m.id == parsed_i32(f[0])->Some_0
    &&& null_field(f, 1, m.snf_filename)
    &&& null_field(f, 2, m.unknown_flag)
}

/// Reads one line of the sound table from its comma-separated fields.
pub fn wave_ini_from_fields(fields: &Vec<String>) -> (r: Result<WaveIni, MapError>)
    ensures
        (r is Ok) == wave_ini_parses(texts_of(fields@)),
        r is Ok ==> wave_ini_of(texts_of(fields@), r->Ok_0),
        r is Err ==> r->Err_0 == MapError::InvalidData,
{
    if fields.len() < 3 {
        return Err(MapError::InvalidData);
    }
    proof {
        assert forall|k: int| 0 <= k < fields@.len() implies #[trigger] texts_of(fields@)[k] == fields@[k]@ by {}
    }
    let id = int_field(fields, 0)?;
    let snf_filename = parse_null(fields[1].as_str());
    let unknown_flag = parse_null(fields[2].as_str());
    Ok(WaveIni {
        id,
        snf_filename,
        unknown_flag,
    })
}

/// Decodes the sound table: EUC-KR text, one record per line, lines that start
/// with a semicolon skipped. A line that cannot be read fails the whole file.
pub fn read_wave_ini(data: &[u8]) -> (r: Result<Vec<WaveIni>, MapError>)
    ensures
        r is Ok ==> {
            let rows = table_rows(true, data@);
            &&& data@.len() <= MAX_TEXT_BYTES
            &&& r->Ok_0@.len() == rows.len()
            &&& forall|i: int| 0 <= i < rows.len() ==> #[trigger] wave_ini_of(fields_by(rows[i], ','), r->Ok_0@[i])
        },
        r is Err ==> r->Err_0 == MapError::InvalidData && (data@.len() > MAX_TEXT_BYTES
            || exists|i: int| 0 <= i < table_rows(true, data@).len() && !wave_ini_parses(fields_by(#[trigger] table_rows(true, data@)[i], ','))),
{
    let rows = read_table(data, true, ',')?;
    let ghost lines = table_rows(true, data@);
    let mut out: Vec<WaveIni> = Vec::new();
    let mut i: usize = 0;
    while i < rows.len()
        invariant
            data@.len() <= MAX_TEXT_BYTES,
            lines == table_rows(true, data@),
            rows@.len() == lines.len(),
            forall|k: int| 0 <= k < lines.len() ==> #[trigger] texts_of(rows@[k]@) == fields_by(lines[k], ','),
            i <= rows@.len(),
            out@.len() == i,
            forall|k: int| 0 <= k < i ==> #[trigger] wave_ini_of(fields_by(lines[k], ','), out@[k]),
        decreases rows@.len() - i,
    {
        proof {
            assert(texts_of(rows@[i as int]@) == fields_by(lines[i as int], ','));
        }
        let m = match wave_ini_from_fields(&rows[i]) {
            Ok(m) => m,
            Err(e) => {
                proof {
                    assert(!wave_ini_parses(fields_by(lines[i as int], ',')));
                }
                return Err(e);
            },
        };
        let ghost before = out@;
        out.push(m);
        proof {
            assert forall|k: int| 0 <= k < i + 1 implies #[trigger] wave_ini_of(fields_by(lines[k], ','), out@[k]) by {
                if k < i {
                    assert(out@[k] == before[k]);
                }
            }
        }
        i = i + 1;
    }
    Ok(out)
}

/// A line of the map table with fields `f` can be read: enough fields, and integers where they are due.
pub open spec fn map_ini_parses(f: Seq<Seq<char>>) -> bool {
    f.len() >= 9 && parsed_i32(f[0]) is Some && parsed_i32(f[1]) is Some && parsed_i32(f[2]) is Some && parsed_i32(f[3]) is Some && parsed_i32(f[4]) is Some && parsed_i32(f[8]) is Some
}

/// `m` was read from a line of the map table with fields `f`.
pub open spec fn map_ini_of(f: Seq<Seq<char>>, m: MapIni) -> bool {
    &&& m.id == parsed_i32(f[0])->Some_0
    &&& m.event_id_on_camera_move == parsed_i32(f[1])->Some_0
    &&& m.start_pos_x == parsed_i32(f[2])->Some_0
    &&& m.start_pos_y == parsed_i32(f[3])->Some_0
    &&& m.map_id == parsed_i32(f[4])->Some_0
    &&& null_field(f, 5, m.monsters_filename)
    &&& null_field(f, 6, m.npc_filename)
    &&& null_field(f, 7, m.extra_filename)
    &&& m.cd_music_track_number == parsed_i32(f[8])->Some_0
}

/// Reads one line of the map table from its comma-separated fields.
pub fn map_ini_from_fields(fields: &Vec<String>) -> (r: Result<MapIni, MapError>)
    ensures
        (r is Ok) == map_ini_parses(texts_of(fields@)),
        r is Ok ==> map_ini_of(texts_of(fields@), r->Ok_0),
        r is Err ==> r->Err_0 == MapError::InvalidData,
{
    if fields.len() < 9 {
        return Err(MapError::InvalidData);
    }
    proof {
        assert forall|k: int| 0 <= k < fields@.len() implies #[trigger] texts_of(fields@)[k] == fields@[k]@ by {}
    }
    let id = int_field(fields, 0)?;
    let event_id_on_camera_move = int_field(fields, 1)?;
    let start_pos_x = int_field(fields, 2)?;
    let start_pos_y = int_field(fields, 3)?;
    let map_id = int_field(fields, 4)?;
    let monsters_filename = parse_null(fields[5].as_str());
    let npc_filename = parse_null(fields[6].as_str());
    let extra_filename = parse_null(fields[7].as_str());
    let cd_music_track_number = int_field(fields, 8)?;
    Ok(MapIni {
        id,
        event_id_on_camera_move,
        start_pos_x,
        start_pos_y,
        map_id,
        monsters_filename,
        npc_filename,
        extra_filename,
        cd_music_track_number,
    })
}

/// Decodes the map table: EUC-KR text, one record per line, lines that start
/// with a semicolon skipped. A line that cannot be read fails the whole file.
pub fn read_map_ini(data: &[u8]) -> (r: Result<Vec<MapIni>, MapError>)
    ensures
        r is Ok ==> {
            let rows = table_rows(true, data@);
            &&& data@.len() <= MAX_TEXT_BYTES
            &&& r->Ok_0@.len() == rows.len()
            &&& forall|i: int| 0 <= i < rows.len() ==> #[trigger] map_ini_of(fields_by(rows[i], ','), r->Ok_0@[i])
        },
        r is Err ==> r->Err_0 == MapError::InvalidData && (data@.len() > MAX_TEXT_BYTES
            || exists|i: int| 0 <= i < table_rows(true, data@).len() && !map_ini_parses(fields_by(#[trigger] table_rows(true, data@)[i], ','))),
{
    let rows = read_table(data, true, ',')?;
    let ghost lines = table_rows(true, data@);
    let mut out: Vec<MapIni> = Vec::new();
    let mut i: usize = 0;
    while i < rows.len()
        invariant
            data@.len() <= MAX_TEXT_BYTES,
            lines == table_rows(true, data@),
            rows@.len() == lines.len(),
            forall|k: int| 0 <= k < lines.len() ==> #[trigger] texts_of(rows@[k]@) == fields_by(lines[k], ','),
            i <= rows@.len(),
            out@.len() == i,
            forall|k: int| 0 <= k < i ==> #[trigger] map_ini_of(fields_by(lines[k], ','), out@[k]),
        decreases rows@.len() - i,
    {
        proof {
            assert(texts_of(rows@[i as int]@) == fields_by(lines[i as int], ','));
        }
        let m = match map_ini_from_fields(&rows[i]) {
            Ok(m) => m,
            Err(e) => {
                proof {
                    assert(!map_ini_parses(fields_by(lines[i as int], ',')));
                }
                return Err(e);
            },
        };
        let ghost before = out@;
        out.push(m);
        proof {
            assert forall|k: int| 0 <= k < i + 1 implies #[trigger] map_ini_of(fields_by(lines[k], ','), out@[k]) by {
                if k < i {
                    assert(out@[k] == before[k]);
                }
            }
        }
        i = i + 1;
    }
    Ok(out)
}

/// A line of the event table with fields `f` can be read: enough fields, and integers where they are due.
pub open spec fn event_parses(f: Seq<Seq<char>>) -> bool {
    f.len() >= 5 && parsed_i32(f[0]) is Some && parsed_i32(f[1]) is Some && parsed_i32(f[2]) is Some && parsed_i32(f[4]) is Some
}

/// `m` was read from a line of the event table with fields `f`.
pub open spec fn event_of(f: Seq<Seq<char>>, m: Event) -> bool {
    &&& m.event_id == parsed_i32(f[0])->Some_0
    &&& m.previous_event_id == parsed_i32(f[1])->Some_0
    &&& m.event_type_id == parsed_i32(f[2])->Some_0
    &&& null_field(f, 3, m.event_filename)
    &&& m.counter == parsed_i32(f[4])->Some_0
}

/// Reads one line of the event table from its comma-separated fields.
pub fn event_from_fields(fields: &Vec<String>) -> (r: Result<Event, MapError>)
    ensures
        (r is Ok) == event_parses(texts_of(fields@)),
        r is Ok ==> event_of(texts_of(fields@), r->Ok_0),
        r is Err ==> r->Err_0 == MapError::InvalidData,
{
    if fields.len() < 5 {
        return Err(MapError::InvalidData);
    }
    proof {
        assert forall|k: int| 0 <= k < fields@.len() implies #[trigger] texts_of(fields@)[k] == fields@[k]@ by {}
    }
    let event_id = int_field(fields, 0)?;
    let previous_event_id = int_field(fields, 1)?;
    let event_type_id = int_field(fields, 2)?;
    let event_filename = parse_null(fields[3].as_str());
    let counter = int_field(fields, 4)?;
    Ok(Event {
        event_id,
        previous_event_id,
        event_type_id,
        event_filename,
        counter,
    })
}

/// Decodes the event table: EUC-KR text, one record per line, lines that start
/// with a semicolon skipped. A line that cannot be read fails the whole file.
pub fn read_event_ini(data: &[u8]) -> (r: Result<Vec<Event>, MapError>)
    ensures
        r is Ok ==> {
            let rows = table_rows(true, data@);
            &&& data@.len() <= MAX_TEXT_BYTES
            &&& r->Ok_0@.len() == rows.len()
            &&& forall|i: int| 0 <= i < rows.len() ==> #[trigger] event_of(fields_by(rows[i], ','), r->Ok_0@[i])
        },
        r is Err ==> r->Err_0 == MapError::InvalidData && (data@.len() > MAX_TEXT_BYTES
            || exists|i: int| 0 <= i < table_rows(true, data@).len() && !event_parses(fields_by(#[trigger] table_rows(true, data@)[i], ','))),
{
    let rows = read_table(data, true, ',')?;
    let ghost lines = table_rows(true, data@);
    let mut out: Vec<Event> = Vec::new();
    let mut i: usize = 0;
    while i < rows.len()
        invariant
            data@.len() <= MAX_TEXT_BYTES,
            lines == table_rows(true, data@),
            rows@.len() == lines.len(),
            forall|k: int| 0 <= k < lines.len() ==> #[trigger] texts_of(rows@[k]@) == fields_by(lines[k], ','),
            i <= rows@.len(),
            out@.len() == i,
            forall|k: int| 0 <= k < i ==> #[trigger] event_of(fields_by(lines[k], ','), out@[k]),
        decreases rows@.len() - i,
    {
        proof {
            assert(texts_of(rows@[i as int]@) == fields_by(lines[i as int], ','));
        }
        let m = match event_from_fields(&rows[i]) {
            Ok(m) => m,
            Err(e) => {
                proof {
                    assert(!event_parses(fields_by(lines[i as int], ',')));
                }
                return Err(e);
            },
        };
        let ghost before = out@;
        out.push(m);
        proof {
            assert forall|k: int| 0 <= k < i + 1 implies #[trigger] event_of(fields_by(lines[k], ','), out@[k]) by {
                if k < i {
                    assert(out@[k] == before[k]);
                }
            }
        }
        i = i + 1;
    }
    Ok(out)
}

/// A line of the interactive object table with fields `f` can be read: enough fields, and integers where they are due.
pub open spec fn extra_parses(f: Seq<Seq<char>>) -> bool {
    f.len() >= 4 && parsed_i32(f[0]) is Some && parsed_i32(f[2]) is Some
}

/// `m` was read from a line of the interactive object table with fields `f`.
pub open spec fn extra_of(f: Seq<Seq<char>>, m: Extra) -> bool {
    &&& m.id == parsed_i32(f[0])->Some_0
    &&& null_field(f, 1, m.sprite_filename)
    &&& m.unknown == parsed_i32(f[2])->Some_0
    &&& null_field(f, 3, m.description)
}

/// Reads one line of the interactive object table from its comma-separated fields.
pub fn extra_from_fields(fields: &Vec<String>) -> (r: Result<Extra, MapError>)
    ensures
        (r is Ok) == extra_parses(texts_of(fields@)),
        r is Ok ==> extra_of(texts_of(fields@), r->Ok_0),
        r is Err ==> r->Err_0 == MapError::InvalidData,
{
    if fields.len() < 4 {
        return Err(MapError::InvalidData);
    }
    proof {
        assert forall|k: int| 0 <= k < fields@.len() implies #[trigger] texts_of(fields@)[k] == fields@[k]@ by {}
    }
    let id = int_field(fields, 0)?;
    let sprite_filename = parse_null(fields[1].as_str());
    let unknown = int_field(fields, 2)?;
    let description = parse_null(fields[3].as_str());
    Ok(Extra {
        id,
        sprite_filename,
        unknown,
        description,
    })
}

/// Decodes the interactive object table: EUC-KR text, one record per line, lines that start
/// with a semicolon skipped. A line that cannot be read fails the whole file.
pub fn read_extra_ini(data: &[u8]) -> (r: Result<Vec<Extra>, MapError>)
    ensures
        r is Ok ==> {
            let rows = table_rows(true, data@);
            &&& data@.len() <= MAX_TEXT_BYTES
            &&& r->Ok_0@.len() == rows.len()
            &&& forall|i: int| 0 <= i < rows.len() ==> #[trigger] extra_of(fields_by(rows[i], ','), r->Ok_0@[i])
        },
        r is Err ==> r->Err_0 == MapError::InvalidData && (data@.len() > MAX_TEXT_BYTES
            || exists|i: int| 0 <= i < table_rows(true, data@).len() && !extra_parses(fields_by(#[trigger] table_rows(true, data@)[i], ','))),
{
    let rows = read_table(data, true, ',')?;
    let ghost lines = table_rows(true, data@);
    let mut out: Vec<Extra> = Vec::new();
    let mut i: usize = 0;
    while i < rows.len()
        invariant
            data@.len() <= MAX_TEXT_BYTES,
            lines == table_rows(true, data@),
            rows@.len() == lines.len(),
            forall|k: int| 0 <= k < lines.len() ==> #[trigger] texts_of(rows@[k]@) == fields_by(lines[k], ','),
            i <= rows@.len(),
            out@.len() == i,
            forall|k: int| 0 <= k < i ==> #[trigger] extra_of(fields_by(lines[k], ','), out@[k]),
        decreases rows@.len() - i,
    {
        proof {
            assert(texts_of(rows@[i as int]@) == fields_by(lines[i as int], ','));
        }
        let m = match extra_from_fields(&rows[i]) {
            Ok(m) => m,
            Err(e) => {
                proof {
                    assert(!extra_parses(fields_by(lines[i as int], ',')));
                }
                return Err(e);
            },
        };
        let ghost before = out@;
        out.push(m);
        proof {
            assert forall|k: int| 0 <= k < i + 1 implies #[trigger] extra_of(fields_by(lines[k], ','), out@[k]) by {
                if k < i {
                    assert(out@[k] == before[k]);
                }
            }
        }
        i = i + 1;
    }
    Ok(out)
}

/// A line of the monster sprite table with fields `f` can be read: enough fields, and integers where they are due.
pub open spec fn monster_ini_parses(f: Seq<Seq<char>>) -> bool {
    f.len() >= 8 && parsed_i32(f[0]) is Some && parsed_i32(f[3]) is Some && parsed_i32(f[4]) is Some && parsed_i32(f[5]) is Some && parsed_i32(f[6]) is Some && parsed_i32(f[7]) is Some
}

/// `m` was read from a line of the monster sprite table with fields `f`.
pub open spec fn monster_ini_of(f: Seq<Seq<char>>, m: MonsterIni) -> bool {
    &&& m.id == parsed_i32(f[0])->Some_0
    &&& null_field(f, 1, m.name)
    &&& null_field(f, 2, m.sprite_filename)
    &&& m.attack == parsed_i32(f[3])->Some_0
    &&& m.hit == parsed_i32(f[4])->Some_0
    &&& m.death == parsed_i32(f[5])->Some_0
    &&& m.walking == parsed_i32(f[6])->Some_0
    &&& m.casting_magic == parsed_i32(f[7])->Some_0
}

/// Reads one line of the monster sprite table from its comma-separated fields.
pub fn monster_ini_from_fields(fields: &Vec<String>) -> (r: Result<MonsterIni, MapError>)
    ensures
        (r is Ok) == monster_ini_parses(texts_of(fields@)),
        r is Ok ==> monster_ini_of(texts_of(fields@), r->Ok_0),
        r is Err ==> r->Err_0 == MapError::InvalidData,
{
    if fields.len() < 8 {
        return Err(MapError::InvalidData);
    }
    proof {
        assert forall|k: int| 0 <= k < fields@.len() implies #[trigger] texts_of(fields@)[k] == fields@[k]@ by {}
    }
    let id = int_field(fields, 0)?;
    let name = parse_null(fields[1].as_str());
    let sprite_filename = parse_null(fields[2].as_str());
    let attack = int_field(fields, 3)?;
    let hit = int_field(fields, 4)?;
    let death = int_field(fields, 5)?;
    let walking = int_field(fields, 6)?;
    let casting_magic = int_field(fields, 7)?;
    Ok(MonsterIni {
        id,
        name,
        sprite_filename,
        attack,
        hit,
        death,
        walking,
        casting_magic,
    })
}

/// Decodes the monster sprite table: Windows-1250 text, one record per line, lines that start
/// with a semicolon skipped. A line that cannot be read fails the whole file.
pub fn read_monster_ini(data: &[u8]) -> (r: Result<Vec<MonsterIni>, MapError>)
    ensures
        r is Ok ==> {
            let rows = table_rows(false, data@);
            &&& data@.len() <= MAX_TEXT_BYTES
            &&& r->Ok_0@.len() == rows.len()
            &&& forall|i: int| 0 <= i < rows.len() ==> #[trigger] monster_ini_of(fields_by(rows[i], ','), r->Ok_0@[i])
        },
        r is Err ==> r->Err_0 == MapError::InvalidData && (data@.len() > MAX_TEXT_BYTES
            || exists|i: int| 0 <= i < table_rows(false, data@).len() && !monster_ini_parses(fields_by(#[trigger] table_rows(false, data@)[i], ','))),
{
    let rows = read_table(data, false, ',')?;
    let ghost lines = table_rows(false, data@);
    let mut out: Vec<MonsterIni> = Vec::new();
    let mut i: usize = 0;
    while i < rows.len()
        invariant
            data@.len() <= MAX_TEXT_BYTES,
            lines == table_rows(false, data@),
            rows@.len() == lines.len(),
            forall|k: int| 0 <= k < lines.len() ==> #[trigger] texts_of(rows@[k]@) == fields_by(lines[k], ','),
            i <= rows@.len(),
            out@.len() == i,
            forall|k: int| 0 <= k < i ==> #[trigger] monster_ini_of(fields_by(lines[k], ','), out@[k]),
        decreases rows@.len() - i,
    {
        proof {
            assert(texts_of(rows@[i as int]@) == fields_by(lines[i as int], ','));
        }
        let m = match monster_ini_from_fields(&rows[i]) {
            Ok(m) => m,
            Err(e) => {
                proof {
                    assert(!monster_ini_parses(fields_by(lines[i as int], ',')));
                }
                return Err(e);
            },
        };
        let ghost before = out@;
        out.push(m);
        proof {
            assert forall|k: int| 0 <= k < i + 1 implies #[trigger] monster_ini_of(fields_by(lines[k], ','), out@[k]) by {
                if k < i {
                    assert(out@[k] == before[k]);
                }
            }
        }
        i = i + 1;
    }
    Ok(out)
}

/// A line of the character sprite table with fields `f` can be read: enough fields, and integers where they are due.
pub open spec fn npc_ini_parses(f: Seq<Seq<char>>) -> bool {
    f.len() >= 3 && parsed_i32(f[0]) is Some
}

/// `m` was read from a line of the character sprite table with fields `f`.
pub open spec fn npc_ini_of(f: Seq<Seq<char>>, m: NpcIni) -> bool {
    &&& m.id == parsed_i32(f[0])->Some_0
    &&& null_field(f, 1, m.sprite_filename)
    &&& m.description@ == f[2]
}

/// Reads one line of the character sprite table from its comma-separated fields.
pub fn npc_ini_from_fields(fields: &Vec<String>) -> (r: Result<NpcIni, MapError>)
    ensures
        (r is Ok) == npc_ini_parses(texts_of(fields@)),
        r is Ok ==> npc_ini_of(texts_of(fields@), r->Ok_0),
        r is Err ==> r->Err_0 == MapError::InvalidData,
{
    if fields.len() < 3 {
        return Err(MapError::InvalidData);
    }
    proof {
        assert forall|k: int| 0 <= k < fields@.len() implies #[trigger] texts_of(fields@)[k] == fields@[k]@ by {}
    }
    let id = int_field(fields, 0)?;
    let sprite_filename = parse_null(fields[1].as_str());
    let description = fields[2].clone();
    Ok(NpcIni {
        id,
        sprite_filename,
        description,
    })
}

/// Decodes the character sprite table: EUC-KR text, one record per line, lines that start
/// with a semicolon skipped. A line that cannot be read fails the whole file.
pub fn read_npc_ini(data: &[u8]) -> (r: Result<Vec<NpcIni>, MapError>)
    ensures
        r is Ok ==> {
            let rows = table_rows(true, data@);
            &&& data@.len() <= MAX_TEXT_BYTES
            &&& r->Ok_0@.len() == rows.len()
            &&& forall|i: int| 0 <= i < rows.len() ==> #[trigger] npc_ini_of(fields_by(rows[i], ','), r->Ok_0@[i])
        },
        r is Err ==> r->Err_0 == MapError::InvalidData && (data@.len() > MAX_TEXT_BYTES
            || exists|i: int| 0 <= i < table_rows(true, data@).len() && !npc_ini_parses(fields_by(#[trigger] table_rows(true, data@)[i], ','))),
{
    let rows = read_table(data, true, ',')?;
    let ghost lines = table_rows(true, data@);
    let mut out: Vec<NpcIni> = Vec::new();
    let mut i: usize = 0;
    while i < rows.len()
        invariant
            data@.len() <= MAX_TEXT_BYTES,
            lines == table_rows(true, data@),
            rows@.len() == lines.len(),
            forall|k: int| 0 <= k < lines.len() ==> #[trigger] texts_of(rows@[k]@) == fields_by(lines[k], ','),
            i <= rows@.len(),
            out@.len() == i,
            forall|k: int| 0 <= k < i ==> #[trigger] npc_ini_of(fields_by(lines[k], ','), out@[k]),
        decreases rows@.len() - i,
    {
        proof {
            assert(texts_of(rows@[i as int]@) == fields_by(lines[i as int], ','));
        }
        let m = match npc_ini_from_fields(&rows[i]) {
            Ok(m) => m,
            Err(e) => {
                proof {
                    assert(!npc_ini_parses(fields_by(lines[i as int], ',')));
                }
                return Err(e);
            },
        };
        let ghost before = out@;
        out.push(m);
        proof {
            assert forall|k: int| 0 <= k < i + 1 implies #[trigger] npc_ini_of(fields_by(lines[k], ','), out@[k]) by {
                if k < i {
                    assert(out@[k] == before[k]);
                }
            }
        }
        i = i + 1;
    }
    Ok(out)
}

/// A line of the party reference table with fields `f` can be read: enough fields, and integers where they are due.
pub open spec fn party_ref_parses(f: Seq<Seq<char>>) -> bool {
    f.len() >= 8 && parsed_i32(f[0]) is Some && parsed_i32(f[3]) is Some && parsed_i32(f[4]) is Some && parsed_i32(f[5]) is Some && parsed_i32(f[6]) is Some && parsed_i32(f[7]) is Some
}

/// `m` was read from a line of the party reference table with fields `f`.
pub open spec fn party_ref_of(f: Seq<Seq<char>>, m: PartyRef) -> bool {
    &&& m.id == parsed_i32(f[0])->Some_0
    &&& null_field(f, 1, m.full_name)
    &&& null_field(f, 2, m.job_name)
    &&& m.root_map_id == parsed_i32(f[3])->Some_0
    &&& m.npc_id == parsed_i32(f[4])->Some_0
    &&& m.dlg_when_not_in_party == parsed_i32(f[5])->Some_0
    &&& m.dlg_when_in_party == parsed_i32(f[6])->Some_0
    &&& m.ghost_face_id == parsed_i32(f[7])->Some_0
}

/// Reads one line of the party reference table from its comma-separated fields.
pub fn party_ref_from_fields(fields: &Vec<String>) -> (r: Result<PartyRef, MapError>)
    ensures
        (r is Ok) == party_ref_parses(texts_of(fields@)),
        r is Ok ==> party_ref_of(texts_of(fields@), r->Ok_0),
        r is Err ==> r->Err_0 == MapError::InvalidData,
{
    if fields.len() < 8 {
        return Err(MapError::InvalidData);
    }
    proof {
        assert forall|k: int| 0 <= k < fields@.len() implies #[trigger] texts_of(fields@)[k] == fields@[k]@ by {}
    }
    let id = int_field(fields, 0)?;
    let full_name = parse_null(fields[1].as_str());
    let job_name = parse_null(fields[2].as_str());
    let root_map_id = int_field(fields, 3)?;
    let npc_id = int_field(fields, 4)?;
    let dlg_when_not_in_party = int_field(fields, 5)?;
    let dlg_when_in_party = int_field(fields, 6)?;
    let ghost_face_id = int_field(fields, 7)?;
    Ok(PartyRef {
        id,
        full_name,
        job_name,
        root_map_id,
        npc_id,
        dlg_when_not_in_party,
        dlg_when_in_party,
        ghost_face_id,
    })
}

/// Decodes the party reference table: Windows-1250 text, one record per line, lines that start
/// with a semicolon skipped. A line that cannot be read fails the whole file.
pub fn read_part_refs(data: &[u8]) -> (r: Result<Vec<PartyRef>, MapError>)
    ensures
        r is Ok ==> {
            let rows = table_rows(false, data@);
            &&& data@.len() <= MAX_TEXT_BYTES
            &&& r->Ok_0@.len() == rows.len()
            &&& forall|i: int| 0 <= i < rows.len() ==> #[trigger] party_ref_of(fields_by(rows[i], ','), r->Ok_0@[i])
        },
        r is Err ==> r->Err_0 == MapError::InvalidData && (data@.len() > MAX_TEXT_BYTES
            || exists|i: int| 0 <= i < table_rows(false, data@).len() && !party_ref_parses(fields_by(#[trigger] table_rows(false, data@)[i], ','))),
{
    let rows = read_table(data, false, ',')?;
    let ghost lines = table_rows(false, data@);
    let mut out: Vec<PartyRef> = Vec::new();
    let mut i: usize = 0;
    while i < rows.len()
        invariant
            data@.len() <= MAX_TEXT_BYTES,
            lines == table_rows(false, data@),
            rows@.len() == lines.len(),
            forall|k: int| 0 <= k < lines.len() ==> #[trigger] texts_of(rows@[k]@) == fields_by(lines[k], ','),
            i <= rows@.len(),
            out@.len() == i,
            forall|k: int| 0 <= k < i ==> #[trigger] party_ref_of(fields_by(lines[k], ','), out@[k]),
        decreases rows@.len() - i,
    {
        proof {
            assert(texts_of(rows@[i as int]@) == fields_by(lines[i as int], ','));
        }
        let m = match party_ref_from_fields(&rows[i]) {
            Ok(m) => m,
            Err(e) => {
                proof {
                    assert(!party_ref_parses(fields_by(lines[i as int], ',')));
                }
                return Err(e);
            },
        };
        let ghost before = out@;
        out.push(m);
        proof {
            assert forall|k: int| 0 <= k < i + 1 implies #[trigger] party_ref_of(fields_by(lines[k], ','), out@[k]) by {
                if k < i {
                    assert(out@[k] == before[k]);
                }
            }
        }
        i = i + 1;
    }
    Ok(out)
}

/// A line of the dialog table with fields `f` can be read: enough fields, and integers where they are due.
pub open spec fn dialog_parses(f: Seq<Seq<char>>) -> bool {
    f.len() >= 7 && parsed_i32(f[0]) is Some
}

/// `m` was read from a line of the dialog table with fields `f`.
pub open spec fn dialog_of(f: Seq<Seq<char>>, m: Dialog) -> bool {
    &&& m.id == parsed_i32(f[0])->Some_0
    &&& opt_int_field(f, 1, m.previous_event_id)
    &&& opt_int_field(f, 2, m.next_dialog_to_check)
    &&& opt_int_field(f, 3, m.dialog_type_id)
    &&& opt_int_field(f, 4, m.dialog_owner)
    &&& opt_int_field(f, 5, m.dialog_id)
    &&& opt_int_field(f, 6, m.event_id)
}

/// Reads one line of the dialog table from its comma-separated fields.
pub fn dialog_from_fields(fields: &Vec<String>) -> (r: Result<Dialog, MapError>)
    ensures
        (r is Ok) == dialog_parses(texts_of(fields@)),
        r is Ok ==> dialog_of(texts_of(fields@), r->Ok_0),
        r is Err ==> r->Err_0 == MapError::InvalidData,
{
    if fields.len() < 7 {
        return Err(MapError::InvalidData);
    }
    proof {
        assert forall|k: int| 0 <= k < fields@.len() implies #[trigger] texts_of(fields@)[k] == fields@[k]@ by {}
    }
    let id = int_field(fields, 0)?;
    let previous_event_id = parse_int(fields[1].as_str());
    let next_dialog_to_check = parse_int(fields[2].as_str());
    let dialog_type_id = parse_int(fields[3].as_str());
    let dialog_owner = parse_int(fields[4].as_str());
    let dialog_id = parse_int(fields[5].as_str());
    let event_id = parse_int(fields[6].as_str());
    Ok(Dialog {
        id,
        previous_event_id,
        next_dialog_to_check,
        dialog_type_id,
        dialog_owner,
        dialog_id,
        event_id,
    })
}

/// Decodes the dialog table: EUC-KR text, one record per line, lines that start
/// with a semicolon skipped. A line that cannot be read fails the whole file.
pub fn read_dialogs(data: &[u8]) -> (r: Result<Vec<Dialog>, MapError>)
    ensures
        r is Ok ==> {
            let rows = table_rows(true, data@);
            &&& data@.len() <= MAX_TEXT_BYTES
            &&& r->Ok_0@.len() == rows.len()
            &&& forall|i: int| 0 <= i < rows.len() ==> #[trigger] dialog_of(fields_by(rows[i], ','), r->Ok_0@[i])
        },
        r is Err ==> r->Err_0 == MapError::InvalidData && (data@.len() > MAX_TEXT_BYTES
            || exists|i: int| 0 <= i < table_rows(true, data@).len() && !dialog_parses(fields_by(#[trigger] table_rows(true, data@)[i], ','))),
{
    let rows = read_table(data, true, ',')?;
    let ghost lines = table_rows(true, data@);
    let mut out: Vec<Dialog> = Vec::new();
    let mut i: usize = 0;
    while i < rows.len()
        invariant
            data@.len() <= MAX_TEXT_BYTES,
            lines == table_rows(true, data@),
            rows@.len() == lines.len(),
            forall|k: int| 0 <= k < lines.len() ==> #[trigger] texts_of(rows@[k]@) == fields_by(lines[k], ','),
            i <= rows@.len(),
            out@.len() == i,
            forall|k: int| 0 <= k < i ==> #[trigger] dialog_of(fields_by(lines[k], ','), out@[k]),
        decreases rows@.len() - i,
    {
        proof {
            assert(texts_of(rows@[i as int]@) == fields_by(lines[i as int], ','));
        }
        let m = match dialog_from_fields(&rows[i]) {
            Ok(m) => m,
            Err(e) => {
                proof {
                    assert(!dialog_parses(fields_by(lines[i as int], ',')));
                }
                return Err(e);
            },
        };
        let ghost before = out@;
        out.push(m);
        proof {
            assert forall|k: int| 0 <= k < i + 1 implies #[trigger] dialog_of(fields_by(lines[k], ','), out@[k]) by {
                if k < i {
                    assert(out@[k] == before[k]);
                }
            }
        }
        i = i + 1;
    }
    Ok(out)
}

/// A line of the party dialog table with fields `f` can be read: enough fields, and integers where they are due.
pub open spec fn party_pgp_parses(f: Seq<Seq<char>>) -> bool {
    f.len() >= 4 && parsed_i32(f[0]) is Some
}

/// `m` was read from a line of the party dialog table with fields `f`.
pub open spec fn party_pgp_of(f: Seq<Seq<char>>, m: PartyPgp) -> bool {
    &&& m.id == parsed_i32(f[0])->Some_0
    &&& null_field(f, 1, m.dialog_text)
    &&& opt_int_field(f, 2, m.unknown_id1)
    &&& opt_int_field(f, 3, m.unknown_id2)
}

/// Reads one line of the party dialog table from its fields.
pub fn party_pgp_from_fields(fields: &Vec<String>) -> (r: Result<PartyPgp, MapError>)
    ensures
        (r is Ok) == party_pgp_parses(texts_of(fields@)),
        r is Ok ==> party_pgp_of(texts_of(fields@), r->Ok_0),
        r is Err ==> r->Err_0 == MapError::InvalidData,
{
    if fields.len() < 4 {
        return Err(MapError::InvalidData);
    }
    proof {
        assert forall|k: int| 0 <= k < fields@.len() implies #[trigger] texts_of(fields@)[k] == fields@[k]@ by {}
    }
    let id = int_field(fields, 0)?;
    let dialog_text = parse_null(fields[1].as_str());
    let unknown_id1 = parse_int(fields[2].as_str());
    let unknown_id2 = parse_int(fields[3].as_str());
    Ok(PartyPgp {
        id,
        dialog_text,
        unknown_id1,
        unknown_id2,
    })
}

/// Decodes the party dialog table: Windows-1250 text, one record per line with fields
/// separated by `|`, lines that start with a semicolon skipped. A line that
/// cannot be read fails the whole file.
pub fn read_party_pgps(data: &[u8]) -> (r: Result<Vec<PartyPgp>, MapError>)
    ensures
        r is Ok ==> {
            let rows = table_rows(false, data@);
            &&& data@.len() <= MAX_TEXT_BYTES
            &&& r->Ok_0@.len() == rows.len()
            &&& forall|i: int| 0 <= i < rows.len() ==> #[trigger] party_pgp_of(fields_by(rows[i], '|'), r->Ok_0@[i])
        },
        r is Err ==> r->Err_0 == MapError::InvalidData && (data@.len() > MAX_TEXT_BYTES
            || exists|i: int| 0 <= i < table_rows(false, data@).len() && !party_pgp_parses(fields_by(#[trigger] table_rows(false, data@)[i], '|'))),
{
    let rows = read_table(data, false, '|')?;
    let ghost lines = table_rows(false, data@);
    let mut out: Vec<PartyPgp> = Vec::new();
    let mut i: usize = 0;
    while i < rows.len()
        invariant
            data@.len() <= MAX_TEXT_BYTES,
            lines == table_rows(false, data@),
            rows@.len() == lines.len(),
            forall|k: int| 0 <= k < lines.len() ==> #[trigger] texts_of(rows@[k]@) == fields_by(lines[k], '|'),
            i <= rows@.len(),
            out@.len() == i,
            forall|k: int| 0 <= k < i ==> #[trigger] party_pgp_of(fields_by(lines[k], '|'), out@[k]),
        decreases rows@.len() - i,
    {
        proof {
            assert(texts_of(rows@[i as int]@) == fields_by(lines[i as int], '|'));
        }
        let m = match party_pgp_from_fields(&rows[i]) {
            Ok(m) => m,
            Err(e) => {
                proof {
                    assert(!party_pgp_parses(fields_by(lines[i as int], '|')));
                }
                return Err(e);
            },
        };
        let ghost before = out@;
        out.push(m);
        proof {
            assert forall|k: int| 0 <= k < i + 1 implies #[trigger] party_pgp_of(fields_by(lines[k], '|'), out@[k]) by {
                if k < i {
                    assert(out@[k] == before[k]);
                }
            }
        }
        i = i + 1;
    }
    Ok(out)
}

/// A line of a `|`-separated script table holds a record: it is not blank or a
/// comment once trimmed, and it has at least four fields.
pub open spec fn script_line_kept(l: Seq<char>) -> bool {
    let t = trimmed(l);
    t.len() > 0 && t[0] != ';' && fields_by(l, '|').len() >= 4
}

/// The lines of a script table that hold records.
pub open spec fn script_lines(lines: Seq<Seq<char>>) -> Seq<Seq<char>>
    decreases lines.len(),
{
    if lines.len() == 0 {
        Seq::empty()
    } else {
        let prev = script_lines(lines.drop_last());
        if script_line_kept(lines.last()) { prev.push(lines.last()) } else { prev }
    }
}

/// The script lines of a Windows-1250 text file.
pub open spec fn script_rows(d: Seq<u8>) -> Seq<Seq<char>> {
    script_lines(lines_of(decoded_text(false, d)))
}

/// An integer of a script field, trimmed; 0 when the text is not one.
pub open spec fn int_or_zero(t: Seq<char>) -> int {
    match parsed_i32(trimmed(t)) {
        Some(v) => v,
        None => 0,
    }
}

/// `v` is the optional text of a trimmed script field `t`: `null` stands for none.
pub open spec fn opt_text(t: Seq<char>, v: Option<String>) -> bool {
    &&& (trimmed(t) == null_text()) == (v is None)
    &&& v is Some ==> v->Some_0@ == trimmed(t)
}

/// Splits a script line into its `|`-separated fields, or gives none for a line
/// that holds no record.
fn script_fields(line: &str) -> (r: Option<Vec<String>>)
    ensures
        (r is Some) == script_line_kept(line@),
        r is Some ==> texts_of(r->Some_0@) == fields_by(line@, '|'),
{
    let t = trim_text(line);
    if t.as_str().is_empty() || starts_with_semicolon(t.as_str()) {
        return None;
    }
    let parts = split_fields(line, '|');
    if parts.len() < 4 {
        proof {
            assert(texts_of(parts@).len() == parts@.len());
        }
        return None;
    }
    proof {
        assert(texts_of(parts@).len() == parts@.len());
    }
    Some(parts)
}

/// The trimmed integer of field `k`, or 0.
fn int_field_or_zero(fields: &Vec<String>, k: usize) -> (r: i32)
    requires
        k < fields@.len(),
    ensures
        r == int_or_zero(fields@[k as int]@),
{
    let t = trim_text(fields[k].as_str());
    match parse_decimal_i32(t.as_str()) {
        Some(v) => v,
        None => 0,
    }
}

/// The trimmed optional text of field `k`.
fn text_field(fields: &Vec<String>, k: usize) -> (r: Option<String>)
    requires
        k < fields@.len(),
    ensures
        opt_text(fields@[k as int]@, r),
{
    let t = trim_text(fields[k].as_str());
    parse_null(t.as_str())
}
/// `m` was read from the message script line `l`.
pub open spec fn message_of(l: Seq<char>, m: Message) -> bool {
    let f = fields_by(l, '|');
    &&& m.id == int_or_zero(f[0])
    &&& opt_text(f[1], m.line1)
    &&& opt_text(f[2], m.line2)
    &&& opt_text(f[3], m.line3)
}

/// Decodes message script file: Windows-1250 text, one record per line with four
/// `|`-separated fields; blank lines, comment lines and lines with fewer
/// fields are skipped.
pub fn read_messages(data: &[u8]) -> (r: Result<Vec<Message>, MapError>)
    ensures
        (r is Ok) == (data@.len() <= MAX_TEXT_BYTES),
        r is Ok ==> {
            let rows = script_rows(data@);
            &&& r->Ok_0@.len() == rows.len()
            &&& forall|i: int| 0 <= i < rows.len() ==> #[trigger] message_of(rows[i], r->Ok_0@[i])
        },
        r is Err ==> r->Err_0 == MapError::InvalidData,
{
    if data.len() > MAX_TEXT_BYTES {
        return Err(MapError::InvalidData);
    }
    let text = decode_text(false, data);
    let lines = text_lines(text.as_str());
    let ghost all = texts_of(lines@);
    let mut out: Vec<Message> = Vec::new();
    let mut i: usize = 0;
    while i < lines.len()
        invariant
            all == texts_of(lines@),
            all == lines_of(decoded_text(false, data@)),
            i <= lines@.len(),
            out@.len() == script_lines(all.take(i as int)).len(),
            forall|k: int| 0 <= k < out@.len() ==> #[trigger] message_of(script_lines(all.take(i as int))[k], out@[k]),
        decreases lines@.len() - i,
    {
        let line = &lines[i];
        proof {
            assert(all.take(i as int + 1).drop_last() =~= all.take(i as int));
            assert(all.take(i as int + 1).last() == line@);
        }
        match script_fields(line.as_str()) {
            Some(fields) => {
                proof {
                    assert forall|k: int| 0 <= k < fields@.len() implies #[trigger] texts_of(fields@)[k] == fields@[k]@ by {}
                }
        let id = int_field_or_zero(&fields, 0);
        let line1 = text_field(&fields, 1);
        let line2 = text_field(&fields, 2);
        let line3 = text_field(&fields, 3);
                let ghost before = out@;
                out.push(Message { id, line1, line2, line3, });
                proof {
                    assert forall|k: int| 0 <= k < out@.len() implies #[trigger] message_of(script_lines(all.take(i as int + 1))[k], out@[k]) by {
                        if k < before.len() {
                            assert(out@[k] == before[k]);
                        }
                    }
                }
            },
            None => {},
        }
        i = i + 1;
    }
    proof {
        assert(all.take(lines@.len() as int) =~= all);
    }
    Ok(out)
}
/// `m` was read from the quest script line `l`.
pub open spec fn quest_of(l: Seq<char>, m: Quest) -> bool {
    let f = fields_by(l, '|');
    &&& m.id == int_or_zero(f[0])
    &&& m.type_id == int_or_zero(f[1])
    &&& opt_text(f[2], m.title)
    &&& opt_text(f[3], m.description)
}

/// Decodes quest script file: Windows-1250 text, one record per line with four
/// `|`-separated fields; blank lines, comment lines and lines with fewer
/// fields are skipped.
pub fn read_quests(data: &[u8]) -> (r: Result<Vec<Quest>, MapError>)
    ensures
        (r is Ok) == (data@.len() <= MAX_TEXT_BYTES),
        r is Ok ==> {
            let rows = script_rows(data@);
            &&& r->Ok_0@.len() == rows.len()
            &&& forall|i: int| 0 <= i < rows.len() ==> #[trigger] quest_of(rows[i], r->Ok_0@[i])
        },
        r is Err ==> r->Err_0 == MapError::InvalidData,
{
    if data.len() > MAX_TEXT_BYTES {
        return Err(MapError::InvalidData);
    }
    let text = decode_text(false, data);
    let lines = text_lines(text.as_str());
    let ghost all = texts_of(lines@);
    let mut out: Vec<Quest> = Vec::new();
    let mut i: usize = 0;
    while i < lines.len()
        invariant
            all == texts_of(lines@),
            all == lines_of(decoded_text(false, data@)),
            i <= lines@.len(),
            out@.len() == script_lines(all.take(i as int)).len(),
            forall|k: int| 0 <= k < out@.len() ==> #[trigger] quest_of(script_lines(all.take(i as int))[k], out@[k]),
        decreases lines@.len() - i,
    {
        let line = &lines[i];
        proof {
            assert(all.take(i as int + 1).drop_last() =~= all.take(i as int));
            assert(all.take(i as int + 1).last() == line@);
        }
        match script_fields(line.as_str()) {
            Some(fields) => {
                proof {
                    assert forall|k: int| 0 <= k < fields@.len() implies #[trigger] texts_of(fields@)[k] == fields@[k]@ by {}
                }
        let id = int_field_or_zero(&fields, 0);
        let type_id = int_field_or_zero(&fields, 1);
        let title = text_field(&fields, 2);
        let description = text_field(&fields, 3);
                let ghost before = out@;
                out.push(Quest { id, type_id, title, description, });
                proof {
                    assert forall|k: int| 0 <= k < out@.len() implies #[trigger] quest_of(script_lines(all.take(i as int + 1))[k], out@[k]) by {
                        if k < before.len() {
                            assert(out@[k] == before[k]);
                        }
                    }
                }
            },
            None => {},
        }
        i = i + 1;
    }
    proof {
        assert(all.take(lines@.len() as int) =~= all);
    }
    Ok(out)
}

/// A line of the event character table holds a record: it does not start with
/// a semicolon, is not blank, and has at least three comma-separated fields.
pub open spec fn event_npc_line_kept(l: Seq<char>) -> bool {
    !(l.len() > 0 && l[0] == ';') && trimmed(l).len() > 0 && fields_by(l, ',').len() >= 3
}

/// The lines of the event character table that hold records.
pub open spec fn event_npc_lines(lines: Seq<Seq<char>>) -> Seq<Seq<char>>
    decreases lines.len(),
{
    if lines.len() == 0 {
        Seq::empty()
    } else {
        let prev = event_npc_lines(lines.drop_last());
        if event_npc_line_kept(lines.last()) { prev.push(lines.last()) } else { prev }
    }
}

/// `m` was read from the event character line `l`.
pub open spec fn event_npc_ref_of(l: Seq<char>, m: EventNpcRef) -> bool {
    let f = fields_by(l, ',');
    &&& m.id == int_or_zero(f[0])
    &&& m.event_id == int_or_zero(f[1])
    &&& m.name@ == trimmed(f[2])
}

/// Decodes the event character table: Windows-1250 text, one record per line
/// of at least three comma-separated fields; comment lines, blank lines and
/// shorter lines are skipped, and an unreadable id counts as 0.
pub fn read_event_npc_ref(data: &[u8]) -> (r: Result<Vec<EventNpcRef>, MapError>)
    ensures
        (r is Ok) == (data@.len() <= MAX_TEXT_BYTES),
        r is Ok ==> {
            let rows = event_npc_lines(lines_of(decoded_text(false, data@)));
            &&& r->Ok_0@.len() == rows.len()
            &&& forall|i: int| 0 <= i < rows.len() ==> #[trigger] event_npc_ref_of(rows[i], r->Ok_0@[i])
        },
        r is Err ==> r->Err_0 == MapError::InvalidData,
{
    if data.len() > MAX_TEXT_BYTES {
        return Err(MapError::InvalidData);
    }
    let text = decode_text(false, data);
    let lines = text_lines(text.as_str());
    let ghost all = texts_of(lines@);
    let mut out: Vec<EventNpcRef> = Vec::new();
    let mut i: usize = 0;
    while i < lines.len()
        invariant
            all == texts_of(lines@),
            all == lines_of(decoded_text(false, data@)),
            i <= lines@.len(),
            out@.len() == event_npc_lines(all.take(i as int)).len(),
            forall|k: int| 0 <= k < out@.len() ==> #[trigger] event_npc_ref_of(event_npc_lines(all.take(i as int))[k], out@[k]),
        decreases lines@.len() - i,
    {
        let line = &lines[i];
        proof {
            assert(all.take(i as int + 1).drop_last() =~= all.take(i as int));
            assert(all.take(i as int + 1).last() == line@);
        }
        let blank = trim_text(line.as_str());
        if !starts_with_semicolon(line.as_str()) && !blank.as_str().is_empty() {
            let parts = split_fields(line.as_str(), ',');
            proof {
                assert(texts_of(parts@).len() == parts@.len());
                assert forall|k: int| 0 <= k < parts@.len() implies #[trigger] texts_of(parts@)[k] == parts@[k]@ by {}
            }
            if parts.len() >= 3 {
                let id = int_field_or_zero(&parts, 0);
                let event_id = int_field_or_zero(&parts, 1);
                let name = trim_text(parts[2].as_str());
                let ghost before = out@;
                out.push(EventNpcRef { id, event_id, name });
                proof {
                    assert forall|k: int| 0 <= k < out@.len() implies #[trigger] event_npc_ref_of(event_npc_lines(all.take(i as int + 1))[k], out@[k]) by {
                        if k < before.len() {
                            assert(out@[k] == before[k]);
                        }
                    }
                }
            }
        }
        i = i + 1;
    }
    proof {
        assert(all.take(lines@.len() as int) =~= all);
    }
    Ok(out)
}

/// `s` with every leading occurrence of `pat` removed, one after another.
pub open spec fn without_prefixes(s: Seq<char>, pat: Seq<char>) -> Seq<char>
    decreases s.len(),
{
    if pat.len() > 0 && s.len() >= pat.len() && s.subrange(0, pat.len() as int) == pat {
        without_prefixes(s.subrange(pat.len() as int, s.len() as int), pat)
    } else {
        s
    }
}

/// Relies on `str::trim_start_matches` with a string pattern: every leading
/// occurrence of the pattern removed, repeatedly; an empty pattern removes nothing.
#[verifier::external_body]
fn strip_prefixes(s: &str, pat: &str) -> (r: String)
    ensures
        r@ == without_prefixes(s@, pat@),
{
    s.trim_start_matches(pat).to_string()
}

/// The fields of a drawn-item line: the line without its opening and closing
/// parentheses, split at commas.
pub open spec fn draw_item_fields(l: Seq<char>) -> Seq<Seq<char>> {
    fields_by(without_suffixes(without_prefixes(l, seq!['(']), seq![')']), ',')
}

/// A drawn-item line can be read: four fields, each an integer.
pub open spec fn draw_item_parses(f: Seq<Seq<char>>) -> bool {
    f.len() >= 4 && parsed_i32(f[0]) is Some && parsed_i32(f[1]) is Some && parsed_i32(f[2]) is Some
        && parsed_i32(f[3]) is Some
}

/// `m` was read from drawn-item fields `f`.
pub open spec fn draw_item_of(f: Seq<Seq<char>>, m: DrawItem) -> bool {
    &&& m.map_id == parsed_i32(f[0])->Some_0
    &&& m.x_coord == parsed_i32(f[1])->Some_0
    &&& m.y_coord == parsed_i32(f[2])->Some_0
    &&& m.item_id == parsed_i32(f[3])->Some_0
}

/// Decodes the drawn-item table: EUC-KR text, one `(map, x, y, item)` record
/// per line, lines that start with a semicolon skipped. A line that cannot be
/// read fails the whole file.
pub fn read_draw_items(data: &[u8]) -> (r: Result<Vec<DrawItem>, MapError>)
    ensures
        r is Ok ==> {
            let rows = table_rows(true, data@);
            &&& data@.len() <= MAX_TEXT_BYTES
            &&& r->Ok_0@.len() == rows.len()
            &&& forall|i: int| 0 <= i < rows.len() ==> #[trigger] draw_item_of(draw_item_fields(rows[i]), r->Ok_0@[i])
        },
        r is Err ==> r->Err_0 == MapError::InvalidData && (data@.len() > MAX_TEXT_BYTES
            || exists|i: int| 0 <= i < table_rows(true, data@).len() && !draw_item_parses(draw_item_fields(#[trigger] table_rows(true, data@)[i]))),
{
    if data.len() > MAX_TEXT_BYTES {
        return Err(MapError::InvalidData);
    }
    let text = decode_text(true, data);
    let lines = text_lines(text.as_str());
    let ghost all = texts_of(lines@);
    let ghost rows = table_rows(true, data@);
    let mut out: Vec<DrawItem> = Vec::new();
    let mut i: usize = 0;
    proof {
        reveal_strlit("(");
        reveal_strlit(")");
        assert("("@ =~= seq!['(']);
        assert(")"@ =~= seq![')']);
    }
    while i < lines.len()
        invariant
            all == texts_of(lines@),
            all == lines_of(decoded_text(true, data@)),
            rows == table_rows(true, data@),
            data@.len() <= MAX_TEXT_BYTES,
            "("@ == seq!['('],
            ")"@ == seq![')'],
            i <= lines@.len(),
            out@.len() == data_lines(all.take(i as int)).len(),
            forall|k: int| 0 <= k < out@.len() ==> #[trigger] draw_item_of(draw_item_fields(data_lines(all.take(i as int))[k]), out@[k]),
        decreases lines@.len() - i,
    {
        let line = &lines[i];
        proof {
            assert(all.take(i as int + 1).drop_last() =~= all.take(i as int));
            assert(all.take(i as int + 1).last() == line@);
        }
        if !starts_with_semicolon(line.as_str()) {
            let inner = strip_prefixes(line.as_str(), "(");
            let inner = strip_suffixes(inner.as_str(), ")");
            let parts = split_fields(inner.as_str(), ',');
            proof {
                assert(texts_of(parts@) == draw_item_fields(line@));
                assert(texts_of(parts@).len() == parts@.len());
                assert forall|k: int| 0 <= k < parts@.len() implies #[trigger] texts_of(parts@)[k] == parts@[k]@ by {}
            }
            let parsed = if parts.len() < 4 {
                Err(MapError::InvalidData)
            } else {
                match (int_field(&parts, 0), int_field(&parts, 1), int_field(&parts, 2), int_field(&parts, 3)) {
                    (Ok(map_id), Ok(x_coord), Ok(y_coord), Ok(item_id)) => Ok(DrawItem { map_id, x_coord, y_coord, item_id }),
                    _ => Err(MapError::InvalidData),
                }
            };
            match parsed {
                Ok(m) => {
                    let ghost before = out@;
                    out.push(m);
                    proof {
                        assert forall|k: int| 0 <= k < out@.len() implies #[trigger] draw_item_of(draw_item_fields(data_lines(all.take(i as int + 1))[k]), out@[k]) by {
                            if k < before.len() {
                                assert(out@[k] == before[k]);
                            }
                        }
                    }
                },
                Err(e) => {
                    proof {
                        assert(data_lines(all.take(i as int + 1)).last() == line@);
                        lemma_data_lines_prefix(all, i as int + 1);
                        let j = data_lines(all.take(i as int + 1)).len() - 1;
                        assert(rows[j] == line@);
                        assert(!draw_item_parses(draw_item_fields(rows[j])));
                    }
                    return Err(e);
                },
            }
        }
        i = i + 1;
    }
    proof {
        assert(all.take(lines@.len() as int) =~= all);
    }
    Ok(out)
}

/// A lemma: the data lines of a prefix of a table are a prefix of its data lines.
pub proof fn lemma_data_lines_prefix(all: Seq<Seq<char>>, n: int)
    requires
        0 <= n <= all.len(),
    ensures
        data_lines(all.take(n)).len() <= data_lines(all).len(),
        forall|k: int| 0 <= k < data_lines(all.take(n)).len() ==> #[trigger] data_lines(all.take(n))[k] == data_lines(all)[k],
    decreases all.len() - n,
{
    if n < all.len() {
        lemma_data_lines_prefix(all, n + 1);
        assert(all.take(n + 1).drop_last() =~= all.take(n));
        let prev = data_lines(all.take(n));
        let next = data_lines(all.take(n + 1));
        assert(next == prev || next == prev.push(all.take(n + 1).last()));
        assert forall|k: int| 0 <= k < prev.len() implies #[trigger] prev[k] == data_lines(all)[k] by {
            assert(prev[k] == next[k]);
        }
    } else {
        assert(all.take(n) =~= all);
    }
}

/// Bytes that one record of the placed-object file takes when read.
pub const EXTRA_REF_SIZE: usize = 176;

/// The record of the placed-object file at `p` of `d`, the `i`-th of its file, was decoded into `m`.
pub open spec fn extra_ref_at(d: Seq<u8>, p: int, i: int, m: ExtraRef) -> bool {
    &&& m.id == i
    &&& m.number_in_file == d[p + 0]
    &&& m.ext_id == d[p + 2]
    &&& m.name@ == field_text(false, d.subrange(p + 3, p + 35))
    &&& m.object_type == d[p + 35]
    &&& m.x_pos == le_i32(d, p + 36)
    &&& m.y_pos == le_i32(d, p + 40)
    &&& m.rotation == d[p + 44]
    &&& m.closed == le_i32(d, p + 52)
    &&& m.required_item_id == d[p + 56]
    &&& m.required_item_type_id == d[p + 57]
    &&& m.required_item_id2 == d[p + 60]
    &&& m.required_item_type_id2 == d[p + 61]
    &&& m.gold_amount == le_i32(d, p + 80)
    &&& m.item_id == d[p + 84]
    &&& m.item_type_id == d[p + 85]
    &&& m.item_count == le_i32(d, p + 88)
    &&& m.event_id == le_i32(d, p + 132)
    &&& m.message_id == le_i32(d, p + 136)
    &&& m.visibility == d[p + 172]
}

/// Reads one record of the placed-object file at `*pos`.
fn read_extra_ref_record(data: &[u8], pos: &mut u64, i: i32) -> (r: Result<ExtraRef, MapError>)
    ensures
        match r {
            Ok(m) => *old(pos) + 176 <= data@.len() && *final(pos) == *old(pos) + 176 && extra_ref_at(data@, *old(pos) as int, i as int, m),
            Err(e) => e == MapError::Io && *old(pos) + 176 > data@.len(),
        },
{
    let number_in_file = read_u8(data, pos)?;
    skip_bytes(data, pos, 1)?;
    let ext_id = read_u8(data, pos)?;
    let name = read_text_field(data, pos, 32, false)?;
    let object_type = read_u8(data, pos)?;
    let x_pos = read_i32(data, pos)?;
    let y_pos = read_i32(data, pos)?;
    let rotation = read_u8(data, pos)?;
    skip_bytes(data, pos, 3)?;
    skip_bytes(data, pos, 4)?;
    let closed = read_i32(data, pos)?;
    let required_item_id = read_u8(data, pos)?;
    let required_item_type_id = read_u8(data, pos)?;
    skip_bytes(data, pos, 2)?;
    let required_item_id2 = read_u8(data, pos)?;
    let required_item_type_id2 = read_u8(data, pos)?;
    skip_bytes(data, pos, 2)?;
    skip_bytes(data, pos, 16)?;
    let gold_amount = read_i32(data, pos)?;
    let item_id = read_u8(data, pos)?;
    let item_type_id = read_u8(data, pos)?;
    skip_bytes(data, pos, 2)?;
    let item_count = read_i32(data, pos)?;
    skip_bytes(data, pos, 40)?;
    let event_id = read_i32(data, pos)?;
    let message_id = read_i32(data, pos)?;
    skip_bytes(data, pos, 32)?;
    let visibility = read_u8(data, pos)?;
    skip_bytes(data, pos, 3)?;
    Ok(ExtraRef {
        id: i,
        number_in_file,
        ext_id,
        name,
        object_type,
        x_pos,
        y_pos,
        rotation,
        closed,
        required_item_id,
        required_item_type_id,
        required_item_id2,
        required_item_type_id2,
        gold_amount,
        item_id,
        item_type_id,
        item_count,
        event_id,
        message_id,
        visibility,
    })
}

/// Decodes the placed-object file: a counter, then one 176-byte record after another, as
/// many as the file has room for at 184 bytes each. A record that runs past
/// the end of the file fails the whole file.
pub fn read_extra_ref(data: &[u8]) -> (r: Result<Vec<ExtraRef>, MapError>)
    ensures
        r is Ok ==> {
            let v = r->Ok_0@;
            &&& data@.len() >= 4
            &&& v.len() == records_in(data@.len() as int, 4, 184)
            &&& forall|i: int| 0 <= i < v.len() ==> #[trigger] extra_ref_at(data@, 4 + 176 * i, i, v[i])
        },
        (r is Ok) == (data@.len() >= 4 && 4 + 176 * records_in(data@.len() as int, 4, 184) <= data@.len()),
        r is Err ==> r->Err_0 == MapError::Io,
{
    let mut pos: u64 = 0;
    let elements = read_mapper(data, &mut pos, 4, 184)?;
    let mut items: Vec<ExtraRef> = Vec::new();
    let mut i: i32 = 0;
    while i < elements
        invariant
            data@.len() >= 4,
            elements == records_in(data@.len() as int, 4, 184),
            0 <= i <= elements,
            pos == 4 + 176 * i,
            items@.len() == i,
            forall|j: int| 0 <= j < i ==> #[trigger] extra_ref_at(data@, 4 + 176 * j, j, items@[j]),
        decreases elements - i,
    {
        let m = match read_extra_ref_record(data, &mut pos, i) {
            Ok(m) => m,
            Err(e) => {
                proof {
                    assert(4 + 176 * elements >= 4 + 176 * i + 176) by (nonlinear_arith)
                        requires i < elements;
                }
                return Err(e);
            },
        };
        let ghost before = items@;
        items.push(m);
        proof {
            assert forall|j: int| 0 <= j < i + 1 implies #[trigger] extra_ref_at(data@, 4 + 176 * j, j, items@[j]) by {
                if j < i {
                    assert(items@[j] == before[j]);
                }
            }
        }
        i = i + 1;
    }
    proof {
        if elements > 0 {
            assert(4 + 176 * elements == 4 + 176 * (elements - 1) + 176) by (nonlinear_arith);
        }
    }
    Ok(items)
}
/// Bytes that one record of the placed-character file takes when read.
pub const NPC_SIZE: usize = 672;

/// The record of the placed-character file at `p` of `d`, the `i`-th of its file, was decoded into `m`.
pub open spec fn npc_at(d: Seq<u8>, p: int, i: int, m: NPC) -> bool {
    &&& m.index == i
    &&& m.id == le_i32(d, p + 0)
    &&& m.npc_id == le_i32(d, p + 4)
    &&& m.name@ == field_text(false, d.subrange(p + 8, p + 268))
    &&& m.party_script_id == le_i32(d, p + 528)
    &&& m.show_on_event == le_i32(d, p + 532)
    &&& m.goto1_filled == le_i32(d, p + 540)
    &&& m.goto2_filled == le_i32(d, p + 544)
    &&& m.goto3_filled == le_i32(d, p + 548)
    &&& m.goto4_filled == le_i32(d, p + 552)
    &&& m.goto1_x == le_i32(d, p + 556)
    &&& m.goto2_x == le_i32(d, p + 560)
    &&& m.goto3_x == le_i32(d, p + 564)
    &&& m.goto4_x == le_i32(d, p + 568)
    &&& m.goto1_y == le_i32(d, p + 572)
    &&& m.goto2_y == le_i32(d, p + 576)
    &&& m.goto3_y == le_i32(d, p + 580)
    &&& m.goto4_y == le_i32(d, p + 584)
    &&& m.looking_direction == le_i32(d, p + 604)
    &&& m.dialog_id == le_i32(d, p + 664)
}

/// Reads one record of the placed-character file at `*pos`.
fn read_npc_record(data: &[u8], pos: &mut u64, i: i32) -> (r: Result<NPC, MapError>)
    ensures
        match r {
            Ok(m) => *old(pos) + 672 <= data@.len() && *final(pos) == *old(pos) + 672 && npc_at(data@, *old(pos) as int, i as int, m),
            Err(e) => e == MapError::Io && *old(pos) + 672 > data@.len(),
        },
{
    let id = read_i32(data, pos)?;
    let npc_id = read_i32(data, pos)?;
    let name = read_text_field(data, pos, 260, false)?;
    skip_bytes(data, pos, 260)?;
    let party_script_id = read_i32(data, pos)?;
    let show_on_event = read_i32(data, pos)?;
    skip_bytes(data, pos, 4)?;
    let goto1_filled = read_i32(data, pos)?;
    let goto2_filled = read_i32(data, pos)?;
    let goto3_filled = read_i32(data, pos)?;
    let goto4_filled = read_i32(data, pos)?;
    let goto1_x = read_i32(data, pos)?;
    let goto2_x = read_i32(data, pos)?;
    let goto3_x = read_i32(data, pos)?;
    let goto4_x = read_i32(data, pos)?;
    let goto1_y = read_i32(data, pos)?;
    let goto2_y = read_i32(data, pos)?;
    let goto3_y = read_i32(data, pos)?;
    let goto4_y = read_i32(data, pos)?;
    skip_bytes(data, pos, 16)?;
    let looking_direction = read_i32(data, pos)?;
    skip_bytes(data, pos, 56)?;
    let dialog_id = read_i32(data, pos)?;
    skip_bytes(data, pos, 4)?;
    Ok(NPC {
        index: i,
        id,
        npc_id,
        name,
        party_script_id,
        show_on_event,
        goto1_filled,
        goto2_filled,
        goto3_filled,
        goto4_filled,
        goto1_x,
        goto2_x,
        goto3_x,
        goto4_x,
        goto1_y,
        goto2_y,
        goto3_y,
        goto4_y,
        looking_direction,
        dialog_id,
    })
}

/// Decodes the placed-character file: a counter, then one 672-byte record after another, as
/// many as the file has room for at 672 bytes each. A record that runs past
/// the end of the file fails the whole file.
pub fn read_npc_ref(data: &[u8]) -> (r: Result<Vec<NPC>, MapError>)
    ensures
        r is Ok ==> {
            let v = r->Ok_0@;
            &&& data@.len() >= 4
            &&& v.len() == records_in(data@.len() as int, 4, 672)
            &&& forall|i: int| 0 <= i < v.len() ==> #[trigger] npc_at(data@, 4 + 672 * i, i, v[i])
        },
        (r is Ok) == (data@.len() >= 4 && 4 + 672 * records_in(data@.len() as int, 4, 672) <= data@.len()),
        r is Err ==> r->Err_0 == MapError::Io,
{
    let mut pos: u64 = 0;
    let elements = read_mapper(data, &mut pos, 4, 672)?;
    let mut items: Vec<NPC> = Vec::new();
    let mut i: i32 = 0;
    while i < elements
        invariant
            data@.len() >= 4,
            elements == records_in(data@.len() as int, 4, 672),
            0 <= i <= elements,
            pos == 4 + 672 * i,
            items@.len() == i,
            forall|j: int| 0 <= j < i ==> #[trigger] npc_at(data@, 4 + 672 * j, j, items@[j]),
        decreases elements - i,
    {
        let m = match read_npc_record(data, &mut pos, i) {
            Ok(m) => m,
            Err(e) => {
                proof {
                    assert(4 + 672 * elements >= 4 + 672 * i + 672) by (nonlinear_arith)
                        requires i < elements;
                }
                return Err(e);
            },
        };
        let ghost before = items@;
        items.push(m);
        proof {
            assert forall|j: int| 0 <= j < i + 1 implies #[trigger] npc_at(data@, 4 + 672 * j, j, items@[j]) by {
                if j < i {
                    assert(items@[j] == before[j]);
                }
            }
        }
        i = i + 1;
    }
    proof {
        if elements > 0 {
            assert(4 + 672 * elements == 4 + 672 * (elements - 1) + 672) by (nonlinear_arith);
        }
    }
    Ok(items)
}

/// A dialogue text record as plain values: id, text, comment, and the two parameters.
pub open spec fn dialogue_view(t: DialogueText) -> (int, Seq<char>, Seq<char>, int, int) {
    (t.id as int, t.text@, t.comment@, t.param1 as int, t.param2 as int)
}

/// Where reading a dialogue text file stands: the comment gathered so far,
/// whether the previous kept line was a comment, and the records read.
pub type DialogueState = (Seq<char>, bool, Seq<(int, Seq<char>, Seq<char>, int, int)>);

/// Separator between the comment lines gathered into one comment.
pub open spec fn comment_separator() -> Seq<char> {
    seq![' ', '|', ' ']
}

/// The state after one more line. Blank lines change nothing. A comment line
/// starts a new comment unless the previous kept line was one too, and adds its
/// trimmed text to it. A line of four `|`-separated fields whose first is an
/// integer is a record, carrying the current comment; other lines change nothing.
pub open spec fn dialogue_step(st: DialogueState, l: Seq<char>) -> DialogueState {
    let t = trimmed(l);
    if t.len() == 0 {
        st
    } else if t[0] == ';' {
        let base = if st.1 { st.0 } else { Seq::empty() };
        let c = trimmed(without_prefixes(t, seq![';']));
        let comment = if c.len() == 0 {
            base
        } else if base.len() == 0 {
            c
        } else {
            base + comment_separator() + c
        };
        (comment, true, st.2)
    } else {
        let f = fields_by(l, '|');
        if f.len() < 4 {
            st
        } else {
            match parsed_i32(trimmed(f[0])) {
                None => st,
                Some(id) => (st.0, false, st.2.push((id, f[1], st.0, int_or_zero(f[2]), int_or_zero(f[3])))),
            }
        }
    }
}

/// The state after the first `n` lines.
pub open spec fn dialogue_upto(lines: Seq<Seq<char>>, n: nat) -> DialogueState
    decreases n,
{
    if n == 0 {
        (Seq::empty(), false, Seq::empty())
    } else {
        dialogue_step(dialogue_upto(lines, (n - 1) as nat), lines[n - 1])
    }
}

/// Decodes the dialogue text file: Windows-1250 text whose records are lines
/// of `|`-separated fields (id, text, two parameters), each carrying the
/// comment lines that precede it.
pub fn read_dialogue_texts(data: &[u8]) -> (r: Result<Vec<DialogueText>, MapError>)
    ensures
        (r is Ok) == (data@.len() <= MAX_TEXT_BYTES),
        r is Ok ==> {
            let lines = lines_of(decoded_text(false, data@));
            r->Ok_0@.map_values(|t: DialogueText| dialogue_view(t)) == dialogue_upto(lines, lines.len()).2
        },
        r is Err ==> r->Err_0 == MapError::InvalidData,
{
    if data.len() > MAX_TEXT_BYTES {
        return Err(MapError::InvalidData);
    }
    let text = decode_text(false, data);
    let lines = text_lines(text.as_str());
    let ghost all = texts_of(lines@);
    let mut texts: Vec<DialogueText> = Vec::new();
    let mut current_comment = String::new();
    let mut last_was_comment = false;
    proof {
        reveal_strlit(";");
        reveal_strlit(" | ");
        assert(";"@ =~= seq![';']);
        assert(" | "@ =~= comment_separator());
        assert(texts@.map_values(|t: DialogueText| dialogue_view(t)) =~= Seq::<(int, Seq<char>, Seq<char>, int, int)>::empty());
        assert(current_comment@ =~= Seq::<char>::empty());
    }
    let mut i: usize = 0;
    while i < lines.len()
        invariant
            all == texts_of(lines@),
            all == lines_of(decoded_text(false, data@)),
            ";"@ == seq![';'],
            " | "@ == comment_separator(),
            i <= lines@.len(),
            (current_comment@, last_was_comment, texts@.map_values(|t: DialogueText| dialogue_view(t))) == dialogue_upto(all, i as nat),
        decreases lines@.len() - i,
    {
        let line = &lines[i];
        let ghost before = dialogue_upto(all, i as nat);
        proof {
            assert(all[i as int] == line@);
        }
        let trimmed_line = trim_text(line.as_str());
        if !trimmed_line.as_str().is_empty() {
            if starts_with_semicolon(trimmed_line.as_str()) {
                if !last_was_comment {
                    current_comment = String::new();
                }
                let stripped = strip_prefixes(trimmed_line.as_str(), ";");
                let c = trim_text(stripped.as_str());
                if !c.as_str().is_empty() {
                    if !current_comment.as_str().is_empty() {
                        current_comment.append(" | ");
                    }
                    current_comment.append(c.as_str());
                }
                last_was_comment = true;
                proof {
                    assert(current_comment@ == dialogue_step(before, line@).0) by {
                        if before.1 {
                        } else {
                            assert(Seq::<char>::empty() + comment_separator() + c@ =~= comment_separator() + c@);
                        }
                        if c@.len() != 0 && before.1 && before.0.len() == 0 {
                            assert(Seq::<char>::empty() + c@ =~= c@);
                        }
                        if c@.len() != 0 && !before.1 {
                            assert(Seq::<char>::empty() + c@ =~= c@);
                        }
                    }
                }
            } else {
                let parts = split_fields(line.as_str(), '|');
                proof {
                    assert(texts_of(parts@).len() == parts@.len());
                    assert forall|k: int| 0 <= k < parts@.len() implies #[trigger] texts_of(parts@)[k] == parts@[k]@ by {}
                }
                if parts.len() >= 4 {
                    let first = trim_text(parts[0].as_str());
                    match parse_decimal_i32(first.as_str()) {
                        Some(id) => {
                            let param1 = int_field_or_zero(&parts, 2);
                            let param2 = int_field_or_zero(&parts, 3);
                            let ghost old_views = texts@.map_values(|t: DialogueText| dialogue_view(t));
                            texts.push(DialogueText {
                                id,
                                text: parts[1].clone(),
                                comment: current_comment.clone(),
                                param1,
                                param2,
                            });
                            last_was_comment = false;
                            proof {
                                assert(texts@.map_values(|t: DialogueText| dialogue_view(t)) =~= old_views.push(
                                    (id as int, parts@[1]@, current_comment@, param1 as int, param2 as int)));
                            }
                        },
                        None => {},
                    }
                }
            }
        }
        i = i + 1;
    }
    proof {
        assert(all.len() == lines@.len());
    }
    Ok(texts)
}

/// A map entry of the map list: files, name, and whether the map is dark.
#[derive(Debug, PartialEq, Eq)]
pub struct MapEntry {
    pub id: i32,
    pub map_filename: String,
    pub map_name: String,
    pub pgp_filename: Option<String>,
    pub dlg_filename: Option<String>,
    pub is_light: bool,
}

/// Whether the text is exactly `1`.
fn is_one(s: &str) -> (r: bool)
    ensures
        r == (s@ == seq!['1']),
{
    if s.is_ascii() {
        let b = s.as_bytes();
        proof {
            vstd::string::is_ascii_spec_bytes(s);
        }
        if b.len() == 1 && b[0] == 0x31 {
            proof {
                assert(s@[0] as u8 == 0x31);
                assert(vstd::utf8::is_ascii_chars(s@));
                assert(s@ =~= seq!['1']);
            }
            return true;
        }
        proof {
            if s@ == seq!['1'] {
                assert(b@[0] == 0x31);
            }
        }
        false
    } else {
        proof {
            if s@ == seq!['1'] {
                assert(vstd::utf8::is_ascii_chars(s@));
            }
        }
        false
    }
}

/// A line of the map list with fields `f` can be read: six fields, the first an integer.
pub open spec fn map_entry_parses(f: Seq<Seq<char>>) -> bool {
    f.len() >= 6 && parsed_i32(f[0]) is Some
}

/// `m` was read from a line of the map list with fields `f`.
pub open spec fn map_entry_of(f: Seq<Seq<char>>, m: MapEntry) -> bool {
    &&& m.id == parsed_i32(f[0])->Some_0
    &&& m.map_filename@ == f[1]
    &&& m.map_name@ == f[2]
    &&& null_field(f, 3, m.pgp_filename)
    &&& null_field(f, 4, m.dlg_filename)
    &&& m.is_light == (f[5] == seq!['1'])
}

/// Reads one line of the map list from its comma-separated fields.
pub fn map_entry_from_fields(fields: &Vec<String>) -> (r: Result<MapEntry, MapError>)
    ensures
        (r is Ok) == map_entry_parses(texts_of(fields@)),
        r is Ok ==> map_entry_of(texts_of(fields@), r->Ok_0),
        r is Err ==> r->Err_0 == MapError::InvalidData,
{
    if fields.len() < 6 {
        return Err(MapError::InvalidData);
    }
    proof {
        assert forall|k: int| 0 <= k < fields@.len() implies #[trigger] texts_of(fields@)[k] == fields@[k]@ by {}
    }
    let id = int_field(fields, 0)?;
    let map_filename = fields[1].clone();
    let map_name = fields[2].clone();
    let pgp_filename = parse_null(fields[3].as_str());
    let dlg_filename = parse_null(fields[4].as_str());
    let is_light = is_one(fields[5].as_str());
    Ok(MapEntry { id, map_filename, map_name, pgp_filename, dlg_filename, is_light })
}

/// Decodes the map list: Windows-1250 text, one map per line, lines that start
/// with a semicolon skipped. A line that cannot be read fails the whole file.
pub fn read_all_map_ini(data: &[u8]) -> (r: Result<Vec<MapEntry>, MapError>)
    ensures
        r is Ok ==> {
            let rows = table_rows(false, data@);
            &&& data@.len() <= MAX_TEXT_BYTES
            &&& r->Ok_0@.len() == rows.len()
            &&& forall|i: int| 0 <= i < rows.len() ==> #[trigger] map_entry_of(fields_by(rows[i], ','), r->Ok_0@[i])
        },
        r is Err ==> r->Err_0 == MapError::InvalidData && (data@.len() > MAX_TEXT_BYTES
            || exists|i: int| 0 <= i < table_rows(false, data@).len() && !map_entry_parses(fields_by(#[trigger] table_rows(false, data@)[i], ','))),
{
    let rows = read_table(data, false, ',')?;
    let ghost lines = table_rows(false, data@);
    let mut out: Vec<MapEntry> = Vec::new();
    let mut i: usize = 0;
    while i < rows.len()
        invariant
            data@.len() <= MAX_TEXT_BYTES,
            lines == table_rows(false, data@),
            rows@.len() == lines.len(),
            forall|k: int| 0 <= k < lines.len() ==> #[trigger] texts_of(rows@[k]@) == fields_by(lines[k], ','),
            i <= rows@.len(),
            out@.len() == i,
            forall|k: int| 0 <= k < i ==> #[trigger] map_entry_of(fields_by(lines[k], ','), out@[k]),
        decreases rows@.len() - i,
    {
        proof {
            assert(texts_of(rows@[i as int]@) == fields_by(lines[i as int], ','));
        }
        let m = match map_entry_from_fields(&rows[i]) {
            Ok(m) => m,
            Err(e) => {
                proof {
                    assert(!map_entry_parses(fields_by(lines[i as int], ',')));
                }
                return Err(e);
            },
        };
        let ghost before = out@;
        out.push(m);
        proof {
            assert forall|k: int| 0 <= k < i + 1 implies #[trigger] map_entry_of(fields_by(lines[k], ','), out@[k]) by {
                if k < i {
                    assert(out@[k] == before[k]);
                }
            }
        }
        i = i + 1;
    }
    Ok(out)
}

} // verus!
