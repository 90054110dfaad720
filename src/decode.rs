use vstd::prelude::*;
use crate::bytes::{le_i16, le_i32, read_i16, read_i32, read_u8, seek_by};
use crate::error::MapError;
use crate::geometry::{header_ok, model_of, MapModel};
use crate::sprite::{frame_pos, get_sequence_info, image_info_at, seq_count, seq_end, seq_ok, seq_start, SequenceInfo};

verus! {

/// Bytes skipped before each sprite catalog entry's sequence and each tiled-object bundle.
pub const ENTRY_HEADER_SKIP: i64 = 264;

/// Extra bytes after a sprite catalog entry for the given stamp.
pub open spec fn stamp_skip(stamp: int) -> int {
    if stamp == 6 { 1904 } else { 2996 }
}

pub open spec fn stamp_known(stamp: int) -> bool {
    stamp == 6 || stamp == 9
}

/// Reads the two header integers at `*pos` (the start of a map file) and derives the model.
pub fn read_map_model(data: &[u8], pos: &mut u64) -> (r: Result<MapModel, MapError>)
    ensures
        ({
            let p = *old(pos) as int;
            let w = le_i32(data@, p);
            let h = le_i32(data@, p + 4);
            match r {
                Ok(m) => p + 8 <= data@.len() && header_ok(w, h) && model_of(m, w, h) && *final(pos) == p + 8,
                Err(e) => p + 8 > data@.len() && e == MapError::Io
                    || p + 8 <= data@.len() && !header_ok(w, h) && (if w <= 0 || h <= 0 {
                        e == MapError::InvalidDimensions
                    } else {
                        e == MapError::ArithmeticOverflow
                    }),
            }
        }),
{
    let width = read_i32(data, pos)?;
    let height = read_i32(data, pos)?;
    MapModel::from_header(width, height)
}

/// The first filler block: a `(multiplier, size)` pair, after which the reader
/// returns to offset 8 and skips `multiplier * size * 4` bytes.
pub fn first_block(data: &[u8], pos: &mut u64) -> (r: Result<(), MapError>)
    ensures
        ({
            let target = 8 + le_i32(data@, *old(pos) as int) * le_i32(data@, *old(pos) + 4) * 4;
            &&& (r is Ok) == (*old(pos) + 8 <= data@.len() && 0 <= target <= u64::MAX)
            &&& r is Ok ==> *final(pos) == target
            &&& r is Err ==> r->Err_0 == MapError::Io
        }),
{
    let multiplier = read_i32(data, pos)?;
    let size = read_i32(data, pos)?;
    let m = multiplier as i128;
    let n = size as i128;
    assert(-0x4000_0000_0000_0000 <= m * n <= 0x4000_0000_0000_0000) by (nonlinear_arith)
        requires -0x8000_0000 <= m <= 0x7fff_ffff, -0x8000_0000 <= n <= 0x7fff_ffff;
    let target: i128 = 8 + m * n * 4;
    if target < 0 || target > u64::MAX as i128 {
        return Err(MapError::Io);
    }
    *pos = target as u64;
    Ok(())
}

/// The second filler block: a size followed by `size * 2` skipped bytes.
pub fn second_block(data: &[u8], pos: &mut u64) -> (r: Result<(), MapError>)
    ensures
        ({
            let target = *old(pos) + 4 + le_i32(data@, *old(pos) as int) * 2;
            &&& (r is Ok) == (*old(pos) + 4 <= data@.len() && 0 <= target <= u64::MAX)
            &&& r is Ok ==> *final(pos) == target
            &&& r is Err ==> r->Err_0 == MapError::Io
        }),
{
    let size = read_i32(data, pos)?;
    seek_by(pos, size as i64 * 2)
}

/// Position of sprite catalog entry `i`, the entries starting at `p0`.
pub open spec fn catalog_pos(d: Seq<u8>, p0: int, i: nat) -> int
    decreases i,
{
    if i == 0 {
        p0
    } else {
        let p = catalog_pos(d, p0, (i - 1) as nat);
        seq_end(d, p + 4 + 264) + stamp_skip(le_i32(d, p))
    }
}

/// Entry `i` of the catalog at `p` (the count comes first) was decoded into `e`.
pub open spec fn catalog_entry(d: Seq<u8>, p: int, i: int, e: SequenceInfo) -> bool {
    let q = catalog_pos(d, p + 4, i as nat);
    &&& stamp_known(le_i32(d, q))
    &&& e.sequence_start_position == seq_start(d, q + 268)
    &&& e.frame_count == seq_count(d, q + 268)
    &&& e.frame_infos@.len() == e.frame_count
    &&& forall|k: int| 0 <= k < e.frame_count ==> image_info_at(
        #[trigger] e.frame_infos@[k],
        d,
        frame_pos(d, seq_start(d, q + 268), k as nat),
    )
}

/// `v` is the sprite catalog stored at `p`: one entry for each counted entry.
pub open spec fn catalog_decoded(d: Seq<u8>, p: int, v: Seq<SequenceInfo>) -> bool {
    let count = le_i32(d, p);
    &&& p + 4 <= d.len()
    &&& v.len() == (if count < 0 { 0 } else { count })
    &&& forall|i: int| 0 <= i < v.len() ==> #[trigger] catalog_entry(d, p, i, v[i])
}

/// The catalog entry at `q` can be decoded: its stamp lies inside `d` and is
/// known, its sequence decodes, and the skips stay within 64-bit positions.
pub open spec fn entry_ok(d: Seq<u8>, q: int) -> bool {
    &&& q + 4 <= d.len()
    &&& stamp_known(le_i32(d, q))
    &&& q + 268 <= u64::MAX
    &&& seq_ok(d, q + 268)
    &&& seq_end(d, q + 268) + stamp_skip(le_i32(d, q)) <= u64::MAX
}

/// The catalog at `p` (the count comes first) can be decoded.
pub open spec fn catalog_ok(d: Seq<u8>, p: int) -> bool {
    &&& p + 4 <= d.len()
    &&& forall|i: int| 0 <= i < le_i32(d, p) ==> #[trigger] entry_ok(d, catalog_pos(d, p + 4, i as nat))
}

/// The first entry of the catalog at `p` that cannot be decoded has a stamp,
/// inside `d`, equal to `s`, and `s` is neither 6 nor 9.
pub open spec fn bad_stamp_at(d: Seq<u8>, p: int, s: int) -> bool {
    &&& p + 4 <= d.len()
    &&& !stamp_known(s)
    &&& exists|i: int| 0 <= i < le_i32(d, p) && catalog_pos(d, p + 4, i as nat) + 4 <= d.len()
        && le_i32(d, #[trigger] catalog_pos(d, p + 4, i as nat)) == s
        && forall|j: int| 0 <= j < i ==> #[trigger] entry_ok(d, catalog_pos(d, p + 4, j as nat))
}

/// A lemma: where decoding stops at an entry whose stamp is unreadable or known,
/// no stamp is to blame.
proof fn lemma_no_bad_stamp(d: Seq<u8>, p: int, i: int)
    requires
        0 <= i < le_i32(d, p),
        forall|j: int| 0 <= j < i ==> #[trigger] entry_ok(d, catalog_pos(d, p + 4, j as nat)),
        !entry_ok(d, catalog_pos(d, p + 4, i as nat)),
        catalog_pos(d, p + 4, i as nat) + 4 > d.len() || stamp_known(le_i32(d, catalog_pos(d, p + 4, i as nat))),
    ensures
        !catalog_ok(d, p),
        forall|s: int| !bad_stamp_at(d, p, s),
{
    assert forall|s: int| !bad_stamp_at(d, p, s) by {
        if bad_stamp_at(d, p, s) {
            let k = choose|k: int| 0 <= k < le_i32(d, p) && catalog_pos(d, p + 4, k as nat) + 4 <= d.len()
                && le_i32(d, #[trigger] catalog_pos(d, p + 4, k as nat)) == s
                && forall|j: int| 0 <= j < k ==> #[trigger] entry_ok(d, catalog_pos(d, p + 4, j as nat));
            if k < i {
                assert(entry_ok(d, catalog_pos(d, p + 4, k as nat)));
            } else if k > i {
                assert(entry_ok(d, catalog_pos(d, p + 4, i as nat)));
            }
        }
    }
}

/// A lemma: where decoding stops at an entry whose readable stamp is unknown,
/// that stamp, and no other, is to blame.
proof fn lemma_bad_stamp(d: Seq<u8>, p: int, i: int)
    requires
        p + 4 <= d.len(),
        0 <= i < le_i32(d, p),
        forall|j: int| 0 <= j < i ==> #[trigger] entry_ok(d, catalog_pos(d, p + 4, j as nat)),
        catalog_pos(d, p + 4, i as nat) + 4 <= d.len(),
        !stamp_known(le_i32(d, catalog_pos(d, p + 4, i as nat))),
    ensures
        forall|s: int| #[trigger] bad_stamp_at(d, p, s) <==> s == le_i32(d, catalog_pos(d, p + 4, i as nat)),
{
    let t = le_i32(d, catalog_pos(d, p + 4, i as nat));
    assert forall|s: int| #[trigger] bad_stamp_at(d, p, s) <==> s == t by {
        if bad_stamp_at(d, p, s) {
            let k = choose|k: int| 0 <= k < le_i32(d, p) && catalog_pos(d, p + 4, k as nat) + 4 <= d.len()
                && le_i32(d, #[trigger] catalog_pos(d, p + 4, k as nat)) == s
                && forall|j: int| 0 <= j < k ==> #[trigger] entry_ok(d, catalog_pos(d, p + 4, j as nat));
            if k < i {
                assert(entry_ok(d, catalog_pos(d, p + 4, k as nat)));
            } else if k > i {
                assert(entry_ok(d, catalog_pos(d, p + 4, i as nat)));
            }
        }
        if s == t {
            assert(0 <= i < le_i32(d, p) && catalog_pos(d, p + 4, i as nat) + 4 <= d.len()
                && le_i32(d, catalog_pos(d, p + 4, i as nat)) == s);
        }
    }
}

/// Decodes the sprite catalog: a count, then per entry a stamp (6 or 9), a
/// skipped header, a sprite sequence and a trailer whose length the stamp gives.
/// It succeeds exactly when every entry decodes; it fails with
/// `UnexpectedMagic(s)` exactly when the first entry that does not decode has
/// the unknown stamp `s`.
pub fn sprite_block(data: &[u8], pos: &mut u64) -> (r: Result<Vec<SequenceInfo>, MapError>)
    ensures
        (r is Ok) == catalog_ok(data@, *old(pos) as int),
        r is Ok ==> catalog_decoded(data@, *old(pos) as int, r->Ok_0@) && *final(pos) == catalog_pos(
            data@,
            *old(pos) + 4,
            r->Ok_0@.len() as nat,
        ),
        r matches Err(MapError::UnexpectedMagic(s)) ==> bad_stamp_at(data@, *old(pos) as int, s as int),
        forall|s: int| #[trigger] bad_stamp_at(data@, *old(pos) as int, s) ==> r == Err::<Vec<SequenceInfo>, MapError>(MapError::UnexpectedMagic(s as i32)),
        r is Err ==> r->Err_0 is Io || r->Err_0 is InvalidData || r->Err_0 is UnexpectedMagic,
{
    let ghost d = data@;
    let ghost p_in = *pos as int;
    let sprite_count = match read_i32(data, pos) {
        Ok(v) => v,
        Err(e) => {
            return Err(e);
        },
    };
    let ghost p0 = *pos as int;
    let mut sprites: Vec<SequenceInfo> = Vec::new();
    let mut i: i32 = 0;
    while i < sprite_count
        invariant
            d == data@,
            p0 == p_in + 4,
            p_in == *old(pos),
            sprite_count == le_i32(d, p_in),
            0 <= i,
            sprite_count >= 0 ==> i <= sprite_count,
            sprite_count < 0 ==> i == 0,
            sprites@.len() == i,
            *pos == catalog_pos(d, p0, i as nat),
            p_in + 4 <= d.len(),
            forall|j: int| 0 <= j < i ==> #[trigger] catalog_entry(d, p_in, j, sprites@[j]),
            forall|j: int| 0 <= j < i ==> #[trigger] entry_ok(d, catalog_pos(d, p0, j as nat)),
        decreases sprite_count - i,
    {
        let ghost p = *pos as int;
        let image_stamp = match read_i32(data, pos) {
            Ok(v) => v,
            Err(e) => {
                proof {
                    lemma_no_bad_stamp(d, p_in, i as int);
                }
                return Err(e);
            },
        };
        let image_offset: i64 = if image_stamp == 6 {
            1904
        } else if image_stamp == 9 {
            2996
        } else {
            proof {
                lemma_bad_stamp(d, p_in, i as int);
                assert(!entry_ok(d, catalog_pos(d, p0, i as nat)));
            }
            return Err(MapError::UnexpectedMagic(image_stamp));
        };
        if seek_by(pos, ENTRY_HEADER_SKIP).is_err() {
            proof {
                lemma_no_bad_stamp(d, p_in, i as int);
            }
            return Err(MapError::Io);
        }
        let info = match get_sequence_info(data, pos) {
            Ok(info) => info,
            Err(e) => {
                proof {
                    lemma_no_bad_stamp(d, p_in, i as int);
                }
                return Err(e);
            },
        };
        *pos = info.sequence_end_position;
        if seek_by(pos, image_offset).is_err() {
            proof {
                lemma_no_bad_stamp(d, p_in, i as int);
            }
            return Err(MapError::Io);
        }
        let ghost old_sprites = sprites@;
        sprites.push(info);
        i = i + 1;
        proof {
            assert(catalog_pos(d, p0, i as nat) == seq_end(d, p + 4 + 264) + stamp_skip(le_i32(d, p)));
            assert(entry_ok(d, catalog_pos(d, p0, (i - 1) as nat)));
            assert forall|j: int| 0 <= j < i implies #[trigger] catalog_entry(d, p_in, j, sprites@[j]) by {
                if j < i - 1 {
                    assert(sprites@[j] == old_sprites[j]);
                }
            }
        }
    }
    proof {
        assert forall|s: int| !bad_stamp_at(d, p_in, s) by {
            if bad_stamp_at(d, p_in, s) {
                let k = choose|k: int| 0 <= k < le_i32(d, p_in) && catalog_pos(d, p_in + 4, k as nat) + 4 <= d.len()
                    && le_i32(d, #[trigger] catalog_pos(d, p_in + 4, k as nat)) == s
                    && forall|j: int| 0 <= j < k ==> #[trigger] entry_ok(d, catalog_pos(d, p_in + 4, j as nat));
                assert(entry_ok(d, catalog_pos(d, p0, k as nat)));
            }
        }
    }
    Ok(sprites)
}

/// Placement of one catalog sprite on the map, in pixels.
#[derive(Debug, Clone, Copy, PartialEq, Eq, Structural)]
pub struct SpriteInfoBlock {
    pub sprite_id: usize,
    pub sprite_x: i32,
    pub sprite_y: i32,
}

/// Frame counts of the catalog entries, by catalog id.
pub open spec fn frame_counts(sprites: Seq<SequenceInfo>) -> Seq<int> {
    sprites.map_values(|s: SequenceInfo| s.frame_count as int)
}

/// Position of placement `i`, the placements starting at `p0`. Each one is
/// seven integers followed by six more for every frame after the first, the
/// frames counted by `counts` at the placement's catalog id.
pub open spec fn placement_pos(d: Seq<u8>, p0: int, counts: Seq<int>, i: nat) -> int
    decreases i,
{
    if i == 0 {
        p0
    } else {
        let p = placement_pos(d, p0, counts, (i - 1) as nat);
        let id = le_i32(d, p);
        p + 28 + (counts[id] - 1) * 24
    }
}

/// The placement at `q` can be decoded: its 28 bytes lie inside `d`, its
/// catalog id is in range, and the skip after it stays within 64-bit positions.
pub open spec fn placement_ok(d: Seq<u8>, q: int, counts: Seq<int>) -> bool {
    &&& q + 28 <= d.len()
    &&& 0 <= le_i32(d, q) < counts.len()
    &&& 0 <= q + 28 + (counts[le_i32(d, q)] - 1) * 24 <= u64::MAX
}

/// The placement block at `p` (the count comes first) can be decoded.
pub open spec fn placements_ok(d: Seq<u8>, p: int, counts: Seq<int>) -> bool {
    &&& p + 4 <= d.len()
    &&& le_i32(d, p) >= 0
    &&& forall|i: int| 0 <= i < le_i32(d, p) ==> #[trigger] placement_ok(d, placement_pos(d, p + 4, counts, i as nat), counts)
}

/// The placement block at `p` has a negative count, or its first placement
/// that cannot be decoded is readable and refers to a catalog id out of range.
pub open spec fn bad_placement(d: Seq<u8>, p: int, counts: Seq<int>) -> bool {
    &&& p + 4 <= d.len()
    &&& (le_i32(d, p) < 0 || exists|i: int| 0 <= i < le_i32(d, p)
        && placement_pos(d, p + 4, counts, i as nat) + 28 <= d.len()
        && !(0 <= le_i32(d, #[trigger] placement_pos(d, p + 4, counts, i as nat)) < counts.len())
        && forall|j: int| 0 <= j < i ==> #[trigger] placement_ok(d, placement_pos(d, p + 4, counts, j as nat), counts))
}

/// Placement `i` of the block at `p` (the count comes first) was decoded into `b`.
pub open spec fn placement_entry(d: Seq<u8>, p: int, counts: Seq<int>, i: int, b: SpriteInfoBlock) -> bool {
    let q = placement_pos(d, p + 4, counts, i as nat);
    &&& q + 28 <= d.len()
    &&& 0 <= le_i32(d, q) < counts.len()
    &&& b.sprite_id == le_i32(d, q)
    &&& b.sprite_x == le_i32(d, q + 20)
    &&& b.sprite_y == le_i32(d, q + 24)
}

/// A lemma: where decoding stops at a placement that is unreadable or whose
/// id is in range, no bad id is to blame.
proof fn lemma_no_bad_placement(d: Seq<u8>, p: int, counts: Seq<int>, i: int)
    requires
        0 <= i < le_i32(d, p),
        forall|j: int| 0 <= j < i ==> #[trigger] placement_ok(d, placement_pos(d, p + 4, counts, j as nat), counts),
        !placement_ok(d, placement_pos(d, p + 4, counts, i as nat), counts),
        placement_pos(d, p + 4, counts, i as nat) + 28 > d.len()
            || 0 <= le_i32(d, placement_pos(d, p + 4, counts, i as nat)) < counts.len(),
    ensures
        !placements_ok(d, p, counts),
        !bad_placement(d, p, counts),
{
    if bad_placement(d, p, counts) {
        let k = choose|k: int| 0 <= k < le_i32(d, p)
            && placement_pos(d, p + 4, counts, k as nat) + 28 <= d.len()
            && !(0 <= le_i32(d, #[trigger] placement_pos(d, p + 4, counts, k as nat)) < counts.len())
            && forall|j: int| 0 <= j < k ==> #[trigger] placement_ok(d, placement_pos(d, p + 4, counts, j as nat), counts);
        if k < i {
            assert(placement_ok(d, placement_pos(d, p + 4, counts, k as nat), counts));
        } else if k > i {
            assert(placement_ok(d, placement_pos(d, p + 4, counts, i as nat), counts));
        }
    }
}

/// Reads the id and position of the placement at `*pos`, leaving `*pos` after its 28 bytes.
fn read_placement(data: &[u8], pos: &mut u64) -> (r: Result<(i32, i32, i32), MapError>)
    ensures
        (r is Ok) == (*old(pos) + 28 <= data@.len()),
        r is Ok ==> *final(pos) == *old(pos) + 28 && r->Ok_0.0 == le_i32(data@, *old(pos) as int)
            && r->Ok_0.1 == le_i32(data@, *old(pos) + 20) && r->Ok_0.2 == le_i32(data@, *old(pos) + 24),
        r is Err ==> r->Err_0 == MapError::Io,
{
    if *pos > data.len() as u64 || data.len() as u64 - *pos < 28 {
        return Err(MapError::Io);
    }
    let sprite_id = read_i32(data, pos)?;
    let _unknown_a = read_i32(data, pos)?;
    let _unknown_b = read_i32(data, pos)?;
    let _bottom_right_x = read_i32(data, pos)?;
    let _bottom_right_y = read_i32(data, pos)?;
    let sprite_x = read_i32(data, pos)?;
    let sprite_y = read_i32(data, pos)?;
    Ok((sprite_id, sprite_x, sprite_y))
}

/// Decodes the sprite placements: a count, then per placement the catalog id,
/// four ignored integers and the position, followed by per-frame data that is
/// skipped. It succeeds exactly when every placement decodes, and fails with
/// `InvalidData` exactly for a negative count or a catalog id out of range.
pub fn sprite_info_block(data: &[u8], pos: &mut u64, sprites: &Vec<SequenceInfo>) -> (r: Result<Vec<SpriteInfoBlock>, MapError>)
    ensures
        ({
            let counts = frame_counts(sprites@);
            &&& (r is Ok) == placements_ok(data@, *old(pos) as int, counts)
            &&& (r == Err::<Vec<SpriteInfoBlock>, MapError>(MapError::InvalidData)) == bad_placement(data@, *old(pos) as int, counts)
            &&& r is Ok ==> {
                let v = r->Ok_0@;
                &&& v.len() == le_i32(data@, *old(pos) as int)
                &&& forall|i: int| 0 <= i < v.len() ==> #[trigger] placement_entry(data@, *old(pos) as int, counts, i, v[i])
                &&& *final(pos) == placement_pos(data@, *old(pos) + 4, counts, v.len() as nat)
            }
            &&& r is Err ==> r->Err_0 == MapError::Io || r->Err_0 == MapError::InvalidData
        }),
{
    let ghost d = data@;
    let ghost p_in = *pos as int;
    let ghost counts = frame_counts(sprites@);
    let count = match read_i32(data, pos) {
        Ok(v) => v,
        Err(e) => {
            return Err(e);
        },
    };
    if count < 0 {
        return Err(MapError::InvalidData);
    }
    let ghost p0 = *pos as int;
    let mut info: Vec<SpriteInfoBlock> = Vec::new();
    let mut i: i32 = 0;
    while i < count
        invariant
            d == data@,
            counts == frame_counts(sprites@),
            p_in == *old(pos),
            p0 == p_in + 4,
            p_in + 4 <= d.len(),
            count == le_i32(d, p_in),
            0 <= i <= count,
            info@.len() == i,
            *pos == placement_pos(d, p0, counts, i as nat),
            forall|j: int| 0 <= j < i ==> #[trigger] placement_entry(d, p_in, counts, j, info@[j]),
            forall|j: int| 0 <= j < i ==> #[trigger] placement_ok(d, placement_pos(d, p0, counts, j as nat), counts),
        decreases count - i,
    {
        let ghost p = *pos as int;
        let (sprite_id, sprite_x, sprite_y) = match read_placement(data, pos) {
            Ok(t) => t,
            Err(e) => {
                proof {
                    lemma_no_bad_placement(d, p_in, counts, i as int);
                }
                return Err(e);
            },
        };
        if sprite_id < 0 || sprite_id as usize >= sprites.len() {
            proof {
                assert(!placement_ok(d, placement_pos(d, p0, counts, i as nat), counts));
                assert(bad_placement(d, p_in, counts));
            }
            return Err(MapError::InvalidData);
        }
        let frames = sprites[sprite_id as usize].frame_count;
        if seek_by(pos, (frames as i64 - 1) * 24).is_err() {
            proof {
                lemma_no_bad_placement(d, p_in, counts, i as int);
            }
            return Err(MapError::Io);
        }
        let ghost old_info = info@;
        info.push(SpriteInfoBlock { sprite_id: sprite_id as usize, sprite_x, sprite_y });
        i = i + 1;
        proof {
            assert(placement_pos(d, p0, counts, i as nat) == p + 28 + (counts[sprite_id as int] - 1) * 24);
            assert(placement_ok(d, placement_pos(d, p0, counts, (i - 1) as nat), counts));
            assert forall|j: int| 0 <= j < i implies #[trigger] placement_entry(d, p_in, counts, j, info@[j]) by {
                if j < i - 1 {
                    assert(info@[j] == old_info[j]);
                }
            }
        }
    }
    proof {
        if bad_placement(d, p_in, counts) {
            let k = choose|k: int| 0 <= k < le_i32(d, p_in)
                && placement_pos(d, p_in + 4, counts, k as nat) + 28 <= d.len()
                && !(0 <= le_i32(d, #[trigger] placement_pos(d, p_in + 4, counts, k as nat)) < counts.len())
                && forall|j: int| 0 <= j < k ==> #[trigger] placement_ok(d, placement_pos(d, p_in + 4, counts, j as nat), counts);
            assert(placement_ok(d, placement_pos(d, p0, counts, k as nat), counts));
        }
    }
    Ok(info)
}

/// A vertical stack of building tiles drawn at one pixel position.
#[derive(Debug, PartialEq, Eq)]
pub struct TiledObjectInfo {
    pub ids: Vec<i16>,
    pub x: i32,
    pub y: i32,
}

/// Number of stacked tile ids of the bundle at `p`.
pub open spec fn bundle_stack_len(d: Seq<u8>, p: int) -> int {
    let c3 = le_i32(d, p + 320);
    if c3 < 0 { 0 } else { c3 }
}

/// Position of bundle `i`, the bundles starting at `p0`.
pub open spec fn bundle_pos(d: Seq<u8>, p0: int, i: nat) -> int
    decreases i,
{
    if i == 0 {
        p0
    } else {
        let p = bundle_pos(d, p0, (i - 1) as nat);
        p + 324 + 2 * bundle_stack_len(d, p) + 84
            + (le_i32(d, p + 312) + le_i32(d, p + 316) + le_i32(d, p + 320)) * 4
    }
}

/// The bundle at `p` was decoded into `o`.
pub open spec fn bundle_entry(d: Seq<u8>, p: int, o: TiledObjectInfo) -> bool {
    &&& p + 324 + 2 * bundle_stack_len(d, p) <= d.len()
    &&& o.x == le_i32(d, p + 296)
    &&& o.y == le_i32(d, p + 300)
    &&& o.ids@.len() == bundle_stack_len(d, p)
    &&& forall|k: int| 0 <= k < o.ids@.len() ==> #[trigger] o.ids@[k] == le_i16(d, p + 324 + 2 * k)
}

/// The bundle at `p` can be decoded: its fields and stacked ids lie inside
/// `d`, and the skips after it stay within 64-bit positions.
pub open spec fn bundle_ok(d: Seq<u8>, p: int) -> bool {
    &&& p + 324 + 2 * bundle_stack_len(d, p) <= d.len()
    &&& p + 324 + 2 * bundle_stack_len(d, p) + 84 <= u64::MAX
    &&& 0 <= bundle_pos(d, p, 1) <= u64::MAX
}

/// Position of the last byte equal to 1 in `[lo, hi)` of `d`, or -1 when there is none.
pub open spec fn sentinel(d: Seq<u8>, lo: int, hi: int) -> int
    decreases hi - lo,
{
    if hi <= lo {
        -1
    } else if d[hi - 1] == 1 {
        hi - 1
    } else {
        sentinel(d, lo, hi - 1)
    }
}

/// Where the reader is re-anchored after bundles that end at `end`: 4 bytes
/// before the last byte equal to 1 among the 20 bytes before `end`, or 4 bytes
/// before `end` when none of them is 1.
pub open spec fn anchor_pos(d: Seq<u8>, end: int) -> int {
    let k = sentinel(d, end - 20, end);
    (if k >= 0 { k } else { end }) - 4
}

/// Re-anchoring after bundles that end at `end` succeeds.
pub open spec fn reanchor_ok(d: Seq<u8>, end: int) -> bool {
    20 <= end <= d.len() && anchor_pos(d, end) >= 0
}

/// The tiled-object block at `p` can be decoded.
pub open spec fn bundles_ok(d: Seq<u8>, p: int) -> bool {
    let count = le_i32(d, p);
    let n = if count < 0 { 0 } else { count };
    &&& p + 8 <= d.len()
    &&& forall|i: int| 0 <= i < n ==> #[trigger] bundle_ok(d, bundle_pos(d, p + 8, i as nat))
    &&& reanchor_ok(d, bundle_pos(d, p + 8, n as nat))
}

/// Reads one bundle of the tiled-object block at `*pos`.
fn read_bundle(data: &[u8], pos: &mut u64) -> (r: Result<TiledObjectInfo, MapError>)
    ensures
        (r is Ok) == bundle_ok(data@, *old(pos) as int),
        r is Ok ==> bundle_entry(data@, *old(pos) as int, r->Ok_0) && *final(pos) == bundle_pos(
            data@,
            *old(pos) as int,
            1,
        ),
        r is Err ==> r->Err_0 == MapError::Io,
{
    let ghost d = data@;
    let ghost p = *pos as int;
    proof {
        assert(bundle_pos(d, p, 1) == bundle_pos(d, p, 0) + 324 + 2 * bundle_stack_len(d, p) + 84
            + (le_i32(d, p + 312) + le_i32(d, p + 316) + le_i32(d, p + 320)) * 4);
    }
    if *pos > data.len() as u64 || data.len() as u64 - *pos < 324 {
        return Err(MapError::Io);
    }
    *pos = *pos + 264;
    let mut k: usize = 0;
    while k < 8
        invariant
            k <= 8,
            d == data@,
            p == *old(pos),
            p + 324 <= d.len(),
            *pos == p + 264 + 4 * k,
        decreases 8 - k,
    {
        let _ignored = read_i32(data, pos)?;
        k = k + 1;
    }
    let x = read_i32(data, pos)?;
    let y = read_i32(data, pos)?;
    let _v7 = read_i32(data, pos)?;
    let _v8 = read_i32(data, pos)?;
    let c1 = read_i32(data, pos)?;
    let c2 = read_i32(data, pos)?;
    let c3 = read_i32(data, pos)?;
    let mut ids: Vec<i16> = Vec::new();
    let mut j: i32 = 0;
    while j < c3
        invariant
            d == data@,
            c3 == le_i32(d, p + 320),
            0 <= j,
            c3 >= 0 ==> j <= c3,
            c3 < 0 ==> j == 0,
            ids@.len() == j,
            p == *old(pos),
            *pos == p + 324 + 2 * j,
            *pos <= d.len(),
            forall|q: int| 0 <= q < j ==> #[trigger] ids@[q] == le_i16(d, p + 324 + 2 * q),
        decreases c3 - j,
    {
        let id = match read_i16(data, pos) {
            Ok(v) => v,
            Err(e) => {
                return Err(e);
            },
        };
        ids.push(id);
        j = j + 1;
    }
    seek_by(pos, 84)?;
    seek_by(pos, (c1 as i64 + c2 as i64 + c3 as i64) * 4)?;
    Ok(TiledObjectInfo { ids, x, y })
}

/// Re-anchors the reader after the tiled-object bundles: the 20 bytes before
/// `*pos` are scanned for a byte equal to 1, the reader returns to where the
/// scan began, then moves to 4 bytes before the last such byte (or before
/// where the scan began, when there is none).
fn reanchor(data: &[u8], pos: &mut u64) -> (r: Result<(), MapError>)
    ensures
        (r is Ok) == reanchor_ok(data@, *old(pos) as int),
        r is Ok ==> *final(pos) == anchor_pos(data@, *old(pos) as int),
        r is Err ==> r->Err_0 == MapError::Io,
{
    let ghost d = data@;
    let ghost end = *pos as int;
    let back_pos: i64 = 20;
    seek_by(pos, -back_pos)?;
    let mut found: i128 = -1;
    let mut k: i64 = 0;
    while k < back_pos
        invariant
            d == data@,
            0 <= k <= 20,
            end >= 20,
            end == *old(pos),
            k > 0 ==> end - 20 + k <= d.len(),
            back_pos == 20,
            *pos == end - 20 + k,
            found == sentinel(d, end - 20, end - 20 + k),
            found < end,
        decreases back_pos - k,
    {
        let here = *pos;
        let v: u8 = match read_u8(data, pos) {
            Ok(v) => v,
            Err(e) => {
                return Err(e);
            },
        };
        proof {
            assert(sentinel(d, end - 20, end - 20 + k + 1) == if d[end - 20 + k] == 1 {
                end - 20 + k
            } else {
                sentinel(d, end - 20, end - 20 + k)
            });
        }
        if v == 1 {
            found = here as i128;
        }
        k = k + 1;
    }
    let target: i128 = (if found >= 0 { found } else { *pos as i128 }) - 4;
    if target < 0 {
        return Err(MapError::Io);
    }
    *pos = target as u64;
    Ok(())
}

/// Decodes the tiled-object block: a bundle count, an ignored integer, then the
/// bundles, after which the reader is re-anchored. It succeeds exactly when
/// every counted bundle decodes and the re-anchoring stays inside the data.
pub fn tiled_objects_block(data: &[u8], pos: &mut u64) -> (r: Result<Vec<TiledObjectInfo>, MapError>)
    ensures
        (r is Ok) == bundles_ok(data@, *old(pos) as int),
        r is Ok ==> {
            let d = data@;
            let v = r->Ok_0@;
            let count = le_i32(d, *old(pos) as int);
            let end = bundle_pos(d, *old(pos) + 8, v.len() as nat);
            &&& *old(pos) + 8 <= d.len()
            &&& v.len() == (if count < 0 { 0 } else { count })
            &&& forall|i: int| 0 <= i < v.len() ==> #[trigger] bundle_entry(d, bundle_pos(d, *old(pos) + 8, i as nat), v[i])
            &&& *final(pos) == anchor_pos(d, end)
        },
        r is Err ==> r->Err_0 == MapError::Io,
{
    let ghost d = data@;
    let ghost p_in = *pos as int;
    let bundles_count = read_i32(data, pos)?;
    let _number1 = read_i32(data, pos)?;
    let ghost p0 = *pos as int;
    let mut infos: Vec<TiledObjectInfo> = Vec::new();
    let mut i: i32 = 0;
    while i < bundles_count
        invariant
            d == data@,
            p_in == *old(pos),
            p0 == p_in + 8,
            p_in + 8 <= d.len(),
            bundles_count == le_i32(d, p_in),
            0 <= i,
            bundles_count >= 0 ==> i <= bundles_count,
            bundles_count < 0 ==> i == 0,
            infos@.len() == i,
            *pos == bundle_pos(d, p0, i as nat),
            forall|j: int| 0 <= j < i ==> #[trigger] bundle_entry(d, bundle_pos(d, p0, j as nat), infos@[j]),
            forall|j: int| 0 <= j < i ==> #[trigger] bundle_ok(d, bundle_pos(d, p0, j as nat)),
        decreases bundles_count - i,
    {
        let ghost p = *pos as int;
        let info = match read_bundle(data, pos) {
            Ok(info) => info,
            Err(e) => {
                proof {
                    assert(!bundle_ok(d, bundle_pos(d, p0, i as nat)));
                }
                return Err(e);
            },
        };
        let ghost old_infos = infos@;
        infos.push(info);
        i = i + 1;
        proof {
            assert(bundle_pos(d, p, 1) == bundle_pos(d, p, 0) + 324 + 2 * bundle_stack_len(d, p) + 84
                + (le_i32(d, p + 312) + le_i32(d, p + 316) + le_i32(d, p + 320)) * 4);
            assert(bundle_pos(d, p0, i as nat) == p + 324 + 2 * bundle_stack_len(d, p) + 84
                + (le_i32(d, p + 312) + le_i32(d, p + 316) + le_i32(d, p + 320)) * 4);
            assert(bundle_ok(d, bundle_pos(d, p0, (i - 1) as nat)));
            assert forall|j: int| 0 <= j < i implies #[trigger] bundle_entry(d, bundle_pos(d, p0, j as nat), infos@[j]) by {
                if j < i - 1 {
                    assert(infos@[j] == old_infos[j]);
                }
            }
        }
    }
    reanchor(data, pos)?;
    Ok(infos)
}

/// Ground tile id held in a ground/collision word.
pub open spec fn ground_id_of(v: i32) -> i32 {
    v >> 10
}

/// Whether a ground tile id marks its cell as blocked.
pub open spec fn collision_of(ground_id: i32) -> bool {
    ground_id & 1 == 1
}

/// Event of one grid cell.
#[derive(Debug, Clone, Copy, PartialEq, Eq, Structural)]
pub struct EventBlock {
    pub x: i32,
    pub y: i32,
    pub unknown: i16,
    pub event_id: i16,
}

/// Reads the dense event grid, row-major: per cell an event id and a flag
/// that carries no meaning for rendering.
pub fn read_events_block(data: &[u8], pos: &mut u64, tiled_map_width: i32, tiled_map_height: i32) -> (r: Result<Vec<EventBlock>, MapError>)
    requires
        tiled_map_width >= 0,
        tiled_map_height >= 0,
        tiled_map_width * tiled_map_height <= usize::MAX,
    ensures
        ({
            let n = tiled_map_width * tiled_map_height;
            let p = *old(pos) as int;
            &&& (r is Ok) == (n == 0 || p + 4 * n <= data@.len())
            &&& r is Ok ==> {
                let v = r->Ok_0@;
                &&& v.len() == n
                &&& *final(pos) == p + 4 * n
                &&& forall|i: int| 0 <= i < n ==> {
                    &&& (#[trigger] v[i]).event_id == le_i16(data@, p + 4 * i)
                    &&& v[i].x == i % tiled_map_width as int
                    &&& v[i].y == i / tiled_map_width as int
                    &&& v[i].unknown == 0
                }
            }
            &&& r is Err ==> r->Err_0 == MapError::Io
        }),
{
    let ghost d = data@;
    let ghost p = *pos as int;
    let n: usize = tiled_map_width as usize * tiled_map_height as usize;
    let w: usize = tiled_map_width as usize;
    proof {
        assert(tiled_map_width * tiled_map_height >= 0) by (nonlinear_arith)
            requires tiled_map_width >= 0, tiled_map_height >= 0;
    }
    let mut blocks: Vec<EventBlock> = Vec::new();
    let mut i: usize = 0;
    while i < n
        invariant
            d == data@,
            p == *old(pos),
            n == tiled_map_width * tiled_map_height,
            tiled_map_width >= 0,
            tiled_map_height >= 0,
            w == tiled_map_width,
            i <= n,
            *pos == p + 4 * i,
            i > 0 ==> p + 4 * i <= d.len(),
            blocks@.len() == i,
            forall|j: int| 0 <= j < i ==> {
                &&& (#[trigger] blocks@[j]).event_id == le_i16(d, p + 4 * j)
                &&& blocks@[j].x == j % w as int
                &&& blocks@[j].y == j / w as int
                &&& blocks@[j].unknown == 0
            },
        decreases n - i,
    {
        let event_id = match read_i16(data, pos) {
            Ok(v) => v,
            Err(e) => {
                return Err(e);
            },
        };
        let _flag = match read_i16(data, pos) {
            Ok(v) => v,
            Err(e) => {
                return Err(e);
            },
        };
        proof {
            assert(w > 0) by (nonlinear_arith)
                requires i < n, n == w * tiled_map_height, tiled_map_height >= 0, w >= 0, i >= 0;
            assert(i / w <= n / w) by (nonlinear_arith)
                requires i < n, w > 0;
            assert(n / w == tiled_map_height) by (nonlinear_arith)
                requires n == w * tiled_map_height, w > 0;
        }
        let x = (i % w) as i32;
        let y = (i / w) as i32;
        blocks.push(EventBlock { x, y, unknown: 0, event_id });
        i = i + 1;
    }
    Ok(blocks)
}

/// Reads the dense ground/collision grid, row-major: per cell one word whose
/// bits above the tenth hold the ground tile id; the id's lowest bit marks a
/// blocked cell.
pub fn read_tiles_and_access_block(data: &[u8], pos: &mut u64, tiled_map_width: i32, tiled_map_height: i32) -> (r: Result<(Vec<i32>, Vec<bool>), MapError>)
    requires
        tiled_map_width >= 0,
        tiled_map_height >= 0,
        tiled_map_width * tiled_map_height <= usize::MAX,
    ensures
        ({
            let n = tiled_map_width * tiled_map_height;
            let p = *old(pos) as int;
            &&& (r is Ok) == (n == 0 || p + 4 * n <= data@.len())
            &&& r is Ok ==> {
                let g = r->Ok_0.0@;
                let c = r->Ok_0.1@;
                &&& g.len() == n
                &&& c.len() == n
                &&& *final(pos) == p + 4 * n
                &&& forall|i: int| 0 <= i < n ==> {
                    &&& #[trigger] g[i] == ground_id_of(le_i32(data@, p + 4 * i) as i32)
                    &&& c[i] == collision_of(g[i])
                }
            }
            &&& r is Err ==> r->Err_0 == MapError::Io
        }),
{
    let ghost d = data@;
    let ghost p = *pos as int;
    let n: usize = tiled_map_width as usize * tiled_map_height as usize;
    proof {
        assert(tiled_map_width * tiled_map_height >= 0) by (nonlinear_arith)
            requires tiled_map_width >= 0, tiled_map_height >= 0;
    }
    let mut gtl_tiles: Vec<i32> = Vec::new();
    let mut collisions: Vec<bool> = Vec::new();
    let mut i: usize = 0;
    while i < n
        invariant
            d == data@,
            p == *old(pos),
            n == tiled_map_width * tiled_map_height,
            tiled_map_width >= 0,
            tiled_map_height >= 0,
            i <= n,
            *pos == p + 4 * i,
            i > 0 ==> p + 4 * i <= d.len(),
            gtl_tiles@.len() == i,
            collisions@.len() == i,
            forall|j: int| 0 <= j < i ==> {
                &&& #[trigger] gtl_tiles@[j] == ground_id_of(le_i32(d, p + 4 * j) as i32)
                &&& collisions@[j] == collision_of(gtl_tiles@[j])
            },
        decreases n - i,
    {
        let value = match read_i32(data, pos) {
            Ok(v) => v,
            Err(e) => {
                return Err(e);
            },
        };
        let gtl_tile_id = value >> 10;
        let collision = (gtl_tile_id & 1) == 1;
        gtl_tiles.push(gtl_tile_id);
        collisions.push(collision);
        i = i + 1;
    }
    Ok((gtl_tiles, collisions))
}

/// Roof tile id that a roof-grid entry holding `id` contributes: positive ids
/// are tiles, anything else is no tile (0).
pub open spec fn roof_id_of(id: int) -> int {
    if id > 0 { id } else { 0 }
}

/// Reads the roof grid, row-major: per cell a tile id and a flag that carries
/// no meaning for rendering. Cells without a positive id hold 0.
pub fn read_roof_tiles(data: &[u8], pos: &mut u64, tiled_map_width: i32, tiled_map_height: i32) -> (r: Result<Vec<i32>, MapError>)
    requires
        tiled_map_width >= 0,
        tiled_map_height >= 0,
        tiled_map_width * tiled_map_height <= usize::MAX,
    ensures
        ({
            let n = tiled_map_width * tiled_map_height;
            let p = *old(pos) as int;
            &&& (r is Ok) == (n == 0 || p + 4 * n <= data@.len())
            &&& r is Ok ==> {
                let v = r->Ok_0@;
                &&& v.len() == n
                &&& *final(pos) == p + 4 * n
                &&& forall|i: int| 0 <= i < n ==> #[trigger] v[i] == roof_id_of(le_i16(data@, p + 4 * i))
            }
            &&& r is Err ==> r->Err_0 == MapError::Io
        }),
{
    let ghost d = data@;
    let ghost p = *pos as int;
    let n: usize = tiled_map_width as usize * tiled_map_height as usize;
    proof {
        assert(tiled_map_width * tiled_map_height >= 0) by (nonlinear_arith)
            requires tiled_map_width >= 0, tiled_map_height >= 0;
    }
    let mut btl_tiles: Vec<i32> = Vec::new();
    let mut i: usize = 0;
    while i < n
        invariant
            d == data@,
            p == *old(pos),
            n == tiled_map_width * tiled_map_height,
            tiled_map_width >= 0,
            tiled_map_height >= 0,
            i <= n,
            *pos == p + 4 * i,
            i > 0 ==> p + 4 * i <= d.len(),
            btl_tiles@.len() == i,
            forall|j: int| 0 <= j < i ==> #[trigger] btl_tiles@[j] == roof_id_of(le_i16(d, p + 4 * j)),
        decreases n - i,
    {
        let btl_tile_id = match read_i16(data, pos) {
            Ok(v) => v,
            Err(e) => {
                return Err(e);
            },
        };
        let _flag = match read_i16(data, pos) {
            Ok(v) => v,
            Err(e) => {
                return Err(e);
            },
        };
        if btl_tile_id > 0 {
            btl_tiles.push(btl_tile_id as i32);
        } else {
            btl_tiles.push(0);
        }
        i = i + 1;
    }
    Ok(btl_tiles)
}

/// Everything decoded from one map file. The grids are dense and row-major:
/// cell `(x, y)` is at index `y * tiled_map_width + x`; a roof cell without a tile holds 0.
#[derive(Debug)]
pub struct MapData {
    pub model: MapModel,
    pub gtl_tiles: Vec<i32>,
    pub btl_tiles: Vec<i32>,
    pub collisions: Vec<bool>,
    pub events: Vec<EventBlock>,
    pub tiled_infos: Vec<TiledObjectInfo>,
    pub internal_sprites: Vec<SequenceInfo>,
    pub sprite_blocks: Vec<SpriteInfoBlock>,
}

impl MapData {
    /// The invariant of decoded map data.
    pub open spec fn wf(&self) -> bool {
        let n = self.model.cell_count();
        &&& self.model.wf()
        &&& self.gtl_tiles@.len() == n
        &&& self.collisions@.len() == n
        &&& self.events@.len() == n
        &&& self.btl_tiles@.len() == n
        &&& forall|i: int| 0 <= i < n ==> #[trigger] self.collisions@[i] == collision_of(self.gtl_tiles@[i])
        &&& forall|i: int| 0 <= i < n ==> #[trigger] self.btl_tiles@[i] >= 0
        &&& forall|k: int| 0 <= k < self.sprite_blocks@.len()
            ==> (#[trigger] self.sprite_blocks@[k]).sprite_id < self.internal_sprites@.len()
        &&& forall|k: int| 0 <= k < self.internal_sprites@.len()
            ==> (#[trigger] self.internal_sprites@[k]).frame_infos@.len() == self.internal_sprites@[k].frame_count
        &&& self.sprite_blocks@.len() <= i32::MAX
        &&& self.tiled_infos@.len() <= i32::MAX
        &&& forall|k: int| 0 <= k < self.tiled_infos@.len() ==> (#[trigger] self.tiled_infos@[k]).ids@.len() <= i32::MAX
    }
}

/// Every decoded cell is blocked exactly when the lowest bit of its ground tile id is set.
pub proof fn lemma_collision_follows_ground_id(m: &MapData, i: int)
    requires
        m.wf(),
        0 <= i < m.model.cell_count(),
    ensures
        m.collisions@[i] == (m.gtl_tiles@[i] & 1 == 1),
{
    assert(m.collisions@[i] == collision_of(m.gtl_tiles@[i]));
}

/// Where the sprite catalog of a map file begins: after the header and the two filler blocks.
pub open spec fn catalog_start(d: Seq<u8>) -> int {
    let a = 8 + le_i32(d, 8) * le_i32(d, 12) * 4;
    a + 4 + le_i32(d, a) * 2
}

/// Where the sprite placements of a map file whose catalog holds `n` entries begin.
pub open spec fn placements_start(d: Seq<u8>, n: nat) -> int {
    catalog_pos(d, catalog_start(d) + 4, n)
}

/// Where the tiled-object block begins, after `sprites` and `n` placements.
pub open spec fn objects_start(d: Seq<u8>, sprites: Seq<SequenceInfo>, n: nat) -> int {
    placement_pos(d, placements_start(d, sprites.len()) + 4, frame_counts(sprites), n)
}

/// Where the grids at the end of a map file with `n` cells begin.
pub open spec fn trailer_start(d: Seq<u8>, n: int) -> int {
    d.len() - 12 * n
}

/// Frame counts of the catalog at `p`, by catalog id, read from the data.
pub open spec fn catalog_counts(d: Seq<u8>, p: int) -> Seq<int> {
    let count = le_i32(d, p);
    Seq::new((if count < 0 { 0 } else { count }) as nat, |i: int| seq_count(d, catalog_pos(d, p + 4, i as nat) + 268))
}

/// Number of entries of the catalog at `p`.
pub open spec fn catalog_len(d: Seq<u8>, p: int) -> nat {
    let count = le_i32(d, p);
    (if count < 0 { 0 } else { count }) as nat
}

/// A lemma: a decoded catalog has the frame counts that the data gives.
proof fn lemma_catalog_counts(d: Seq<u8>, p: int, v: Seq<SequenceInfo>)
    requires
        catalog_decoded(d, p, v),
    ensures
        frame_counts(v) =~= catalog_counts(d, p),
        v.len() == catalog_len(d, p),
{
    assert forall|i: int| 0 <= i < v.len() implies frame_counts(v)[i] == catalog_counts(d, p)[i] by {
        assert(catalog_entry(d, p, i, v[i]));
    }
}

/// The header of the map file is read and accepted, and the two filler blocks
/// are skipped, so that the catalog begins at `catalog_start(d)`.
pub open spec fn prefix_ok(d: Seq<u8>) -> bool {
    let a = 8 + le_i32(d, 8) * le_i32(d, 12) * 4;
    &&& d.len() >= 16
    &&& header_ok(le_i32(d, 0), le_i32(d, 4))
    &&& 0 <= a <= u64::MAX
    &&& a + 4 <= d.len()
    &&& 0 <= catalog_start(d) <= u64::MAX
}

/// Where the placements begin, after the catalog.
pub open spec fn placements_at(d: Seq<u8>) -> int {
    catalog_pos(d, catalog_start(d) + 4, catalog_len(d, catalog_start(d)))
}

/// Where the tiled-object block begins, after the placements.
pub open spec fn objects_at(d: Seq<u8>) -> int {
    let ps = placements_at(d);
    placement_pos(d, ps + 4, catalog_counts(d, catalog_start(d)), le_i32(d, ps) as nat)
}

/// Every block before the grids of the map file decodes.
pub open spec fn blocks_ok(d: Seq<u8>) -> bool {
    &&& prefix_ok(d)
    &&& catalog_ok(d, catalog_start(d))
    &&& placements_ok(d, placements_at(d), catalog_counts(d, catalog_start(d)))
    &&& bundles_ok(d, objects_at(d))
}

/// Number of grid cells of the map file's header.
pub open spec fn header_cells(d: Seq<u8>) -> int {
    (le_i32(d, 0) * 25 - 1) * (le_i32(d, 4) * 25 - 1)
}

/// The whole map file decodes: every block, and the grids at its end.
pub open spec fn map_ok(d: Seq<u8>) -> bool {
    blocks_ok(d) && 12 * header_cells(d) <= d.len()
}

/// Decodes a whole map file. It succeeds exactly when every block and the
/// grids decode. A short file fails with `Io`, a rejected header with
/// `InvalidDimensions` or `ArithmeticOverflow`, a catalog entry with an unknown
/// stamp with `UnexpectedMagic`, a placement with an unknown catalog id with
/// `InvalidData`; no partial data is returned.
pub fn read_map_data(data: &[u8]) -> (r: Result<MapData, MapError>)
    ensures
        (r is Ok) == map_ok(data@),
        r is Ok ==> {
            let m = r->Ok_0;
            let d = data@;
            let n = m.model.cell_count();
            let t = trailer_start(d, n);
            &&& m.wf()
            &&& model_of(m.model, le_i32(d, 0), le_i32(d, 4))
            &&& 0 <= t
            &&& catalog_decoded(d, catalog_start(d), m.internal_sprites@)
            &&& m.sprite_blocks@.len() == le_i32(d, placements_start(d, m.internal_sprites@.len()))
            &&& forall|i: int| 0 <= i < m.sprite_blocks@.len() ==> #[trigger] placement_entry(
                d,
                placements_start(d, m.internal_sprites@.len()),
                frame_counts(m.internal_sprites@),
                i,
                m.sprite_blocks@[i],
            )
            &&& ({
                let q = objects_start(d, m.internal_sprites@, m.sprite_blocks@.len());
                &&& m.tiled_infos@.len() == (if le_i32(d, q) < 0 { 0 } else { le_i32(d, q) })
                &&& forall|i: int| 0 <= i < m.tiled_infos@.len() ==> #[trigger] bundle_entry(d, bundle_pos(d, q + 8, i as nat), m.tiled_infos@[i])
            })
            &&& forall|i: int| 0 <= i < n ==> {
                &&& (#[trigger] m.events@[i]).event_id == le_i16(d, t + 4 * i)
                &&& m.events@[i].x == i % m.model.tiled_map_width as int
                &&& m.events@[i].y == i / m.model.tiled_map_width as int
                &&& m.gtl_tiles@[i] == ground_id_of(le_i32(d, t + 4 * n + 4 * i) as i32)
                &&& m.btl_tiles@[i] == roof_id_of(le_i16(d, t + 8 * n + 4 * i))
            }
        },
        data@.len() < 8 ==> r == Err::<MapData, MapError>(MapError::Io),
        data@.len() >= 8 && (le_i32(data@, 0) <= 0 || le_i32(data@, 4) <= 0)
            ==> r == Err::<MapData, MapError>(MapError::InvalidDimensions),
        data@.len() >= 8 && le_i32(data@, 0) > 0 && le_i32(data@, 4) > 0 && !header_ok(le_i32(data@, 0), le_i32(data@, 4))
            ==> r == Err::<MapData, MapError>(MapError::ArithmeticOverflow),
        r matches Err(MapError::UnexpectedMagic(s)) ==> bad_stamp_at(data@, catalog_start(data@), s as int),
        prefix_ok(data@) ==> forall|s: int| #[trigger] bad_stamp_at(data@, catalog_start(data@), s)
            ==> r == Err::<MapData, MapError>(MapError::UnexpectedMagic(s as i32)),
        prefix_ok(data@) && catalog_ok(data@, catalog_start(data@))
            && bad_placement(data@, placements_at(data@), catalog_counts(data@, catalog_start(data@)))
            ==> r == Err::<MapData, MapError>(MapError::InvalidData),
        blocks_ok(data@) && 12 * header_cells(data@) > data@.len() ==> r == Err::<MapData, MapError>(MapError::Io),
{
    let ghost d = data@;
    let file_len = data.len() as u64;
    let mut pos: u64 = 0;
    let map_model = read_map_model(data, &mut pos)?;
    let tiled_map_width = map_model.tiled_map_width;
    let tiled_map_height = map_model.tiled_map_height;
    proof {
        assert(tiled_map_width * tiled_map_height <= 67108850 * 67108850) by (nonlinear_arith)
            requires 0 < tiled_map_width <= 67108850, 0 < tiled_map_height <= 67108850;
        assert(header_cells(d) == tiled_map_width * tiled_map_height);
    }
    if first_block(data, &mut pos).is_err() {
        return Err(MapError::Io);
    }
    if second_block(data, &mut pos).is_err() {
        return Err(MapError::Io);
    }
    let ghost cs = pos as int;
    proof {
        assert(cs == catalog_start(d));
        assert(prefix_ok(d));
    }
    let internal_sprites = match sprite_block(data, &mut pos) {
        Ok(v) => v,
        Err(e) => {
            return Err(e);
        },
    };
    let ghost p_place = pos as int;
    proof {
        lemma_catalog_counts(d, cs, internal_sprites@);
        assert(p_place == placements_at(d));
    }
    let sprite_blocks = match sprite_info_block(data, &mut pos, &internal_sprites) {
        Ok(v) => v,
        Err(e) => {
            return Err(e);
        },
    };
    let ghost p_objects = pos as int;
    proof {
        assert(p_objects == objects_at(d));
    }
    let tiled_infos = match tiled_objects_block(data, &mut pos) {
        Ok(v) => v,
        Err(e) => {
            return Err(e);
        },
    };
    proof {
        assert(blocks_ok(d));
    }
    let n: u64 = tiled_map_width as u64 * tiled_map_height as u64;
    if n > file_len / 12 {
        return Err(MapError::Io);
    }
    pos = file_len - n * 12;
    let events = match read_events_block(data, &mut pos, tiled_map_width, tiled_map_height) {
        Ok(v) => v,
        Err(e) => {
            return Err(e);
        },
    };
    let (gtl_tiles, collisions) = match read_tiles_and_access_block(data, &mut pos, tiled_map_width, tiled_map_height) {
        Ok(v) => v,
        Err(e) => {
            return Err(e);
        },
    };
    let mut btl_tiles: Vec<i32> = Vec::new();
    if pos <= file_len && n * 4 <= file_len - pos {
        btl_tiles = match read_roof_tiles(data, &mut pos, tiled_map_width, tiled_map_height) {
            Ok(v) => v,
            Err(e) => {
                return Err(e);
            },
        };
    }
    proof {
        assert(header_ok(le_i32(d, 0), le_i32(d, 4)) && model_of(map_model, le_i32(d, 0), le_i32(d, 4)));
        assert(map_model.wf());
        assert forall|k: int| 0 <= k < internal_sprites@.len() implies
            (#[trigger] internal_sprites@[k]).frame_infos@.len() == internal_sprites@[k].frame_count by {
            assert(catalog_entry(d, catalog_start(d), k, internal_sprites@[k]));
        }
    }
    let map = MapData {
        model: map_model,
        gtl_tiles,
        btl_tiles,
        collisions,
        events,
        tiled_infos,
        internal_sprites,
        sprite_blocks,
    };
    proof {
        assert forall|k: int| 0 <= k < sprite_blocks@.len() implies
            (#[trigger] sprite_blocks@[k]).sprite_id < internal_sprites@.len() by {
            assert(placement_entry(d, p_place, frame_counts(internal_sprites@), k, sprite_blocks@[k]));
        }
        assert forall|k: int| 0 <= k < tiled_infos@.len() implies (#[trigger] tiled_infos@[k]).ids@.len() <= i32::MAX by {
            assert(bundle_entry(d, bundle_pos(d, p_objects + 8, k as nat), tiled_infos@[k]));
        }
        assert forall|i: int| 0 <= i < n implies #[trigger] collisions@[i] == collision_of(gtl_tiles@[i]) by {
            assert(gtl_tiles@[i] == gtl_tiles@[i]);
        }
        assert(map.wf());
        assert(catalog_decoded(d, catalog_start(d), map.internal_sprites@));
    }
    Ok(map)
}

} // verus!
