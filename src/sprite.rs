use vstd::prelude::*;
use crate::bytes::{le_i32, le_u16, le_u32, read_i32, read_u16, read_u32, seek_by};
use crate::canvas::{pixel_index, Canvas, Pixel};
use crate::color::{rgb16_565_produce_color, rgb565_blue, rgb565_green, rgb565_red};
use crate::error::MapError;

verus! {

/// Metadata of one frame of a sprite sequence; its pixels follow it in the file.
#[derive(Debug, Clone, Copy, PartialEq, Eq, Structural)]
pub struct ImageInfo {
    pub origin_x: i32,
    pub origin_y: i32,
    pub width: i32,
    pub height: i32,
    pub size_bytes: i64,
    pub image_start_position: u64,
}

/// Frame metadata of a sprite sequence and where the sequence lies in the file.
#[derive(Debug)]
pub struct SequenceInfo {
    pub sequence_start_position: u64,
    pub sequence_end_position: u64,
    pub frame_count: i32,
    pub frame_infos: Vec<ImageInfo>,
}

/// `info` is the frame header found at byte `p` of `d`.
pub open spec fn image_info_at(info: ImageInfo, d: Seq<u8>, p: int) -> bool {
    &&& info.origin_x == le_i32(d, p + 24)
    &&& info.origin_y == le_i32(d, p + 28)
    &&& info.width == le_i32(d, p + 32)
    &&& info.height == le_i32(d, p + 36)
    &&& info.size_bytes == 2 * le_u32(d, p + 40)
    &&& info.image_start_position == p + 44
}

/// A frame header at `p` can be decoded: it lies inside `d` and its sizes are positive.
pub open spec fn image_info_ok(d: Seq<u8>, p: int) -> bool {
    p + 44 <= d.len() && le_i32(d, p + 32) >= 1 && le_i32(d, p + 36) >= 1
}

/// Position of the header of frame `i` of a sequence whose frames start at `start`.
pub open spec fn frame_pos(d: Seq<u8>, start: int, i: nat) -> int
    decreases i,
{
    if i == 0 {
        start
    } else {
        let p = frame_pos(d, start, (i - 1) as nat);
        p + 44 + 2 * le_u32(d, p + 40)
    }
}

/// Where the frames of the sequence whose header is at `p` begin.
pub open spec fn seq_start(d: Seq<u8>, p: int) -> int {
    if le_i32(d, p) == 8 {
        if le_i32(d, p + 4) == 0 { p + 16 } else { p + 8 }
    } else if le_i32(d, p) == 0 {
        p + 12
    } else {
        p + 4
    }
}

/// Frame count announced by the sequence header at `p`.
pub open spec fn seq_count(d: Seq<u8>, p: int) -> int {
    if le_i32(d, p) == 8 {
        if le_i32(d, p + 4) == 0 { le_i32(d, p + 8) } else { 0 }
    } else if le_i32(d, p) == 0 {
        le_i32(d, p + 4)
    } else {
        0
    }
}

/// Where the sequence whose header is at `p` ends.
pub open spec fn seq_end(d: Seq<u8>, p: int) -> int {
    frame_pos(d, seq_start(d, p), seq_count(d, p) as nat)
}

/// Frame `i` of the sequence whose frames start at `start` can be read, and
/// skipping its pixels stays within 64-bit positions.
pub open spec fn frame_ok(d: Seq<u8>, start: int, i: nat) -> bool {
    image_info_ok(d, frame_pos(d, start, i)) && frame_pos(d, start, i + 1) <= u64::MAX
}

/// The sequence whose header is at `p` can be decoded: its header lies inside
/// `d`, its frame count is not negative, and every frame can be read.
pub open spec fn seq_ok(d: Seq<u8>, p: int) -> bool {
    &&& seq_start(d, p) <= d.len()
    &&& seq_count(d, p) >= 0
    &&& forall|i: int| 0 <= i < seq_count(d, p) ==> #[trigger] frame_ok(d, seq_start(d, p), i as nat)
}

/// Decodes the frame header at `*pos`, leaving `*pos` at its first pixel.
pub fn get_image_info(data: &[u8], pos: &mut u64) -> (r: Result<ImageInfo, MapError>)
    ensures
        match r {
            Ok(info) => image_info_ok(data@, *old(pos) as int) && image_info_at(info, data@, *old(pos) as int)
                && *final(pos) == *old(pos) + 44,
            Err(e) => !image_info_ok(data@, *old(pos) as int) && (
                if *old(pos) + 44 > data@.len() { e == MapError::Io } else { e == MapError::InvalidData }),
        },
{
    if *pos > data.len() as u64 || seek_by(pos, 24).is_err() {
        return Err(MapError::Io);
    }
    let origin_x = read_i32(data, pos)?;
    let origin_y = read_i32(data, pos)?;
    let width = read_i32(data, pos)?;
    let height = read_i32(data, pos)?;
    let size = read_u32(data, pos)?;
    let info = ImageInfo {
        origin_x,
        origin_y,
        width,
        height,
        size_bytes: size as i64 * 2,
        image_start_position: *pos,
    };
    if width < 1 || height < 1 {
        return Err(MapError::InvalidData);
    }
    Ok(info)
}

/// Decodes the header of a sprite sequence at `*pos`: an optional 8 followed
/// by 0 announces a frame count; any other value means no frames. On success
/// `*pos` is left at the first frame header.
pub fn get_sequence_info(data: &[u8], pos: &mut u64) -> (r: Result<SequenceInfo, MapError>)
    ensures
        r is Ok ==> {
            let info = r->Ok_0;
            let d = data@;
            let start = info.sequence_start_position as int;
            &&& *final(pos) == info.sequence_start_position
            &&& start == seq_start(d, *old(pos) as int)
            &&& info.frame_count == seq_count(d, *old(pos) as int)
            &&& info.frame_count >= 0
            &&& info.frame_infos@.len() == info.frame_count
            &&& forall|i: int| 0 <= i < info.frame_count ==> {
                &&& image_info_ok(d, #[trigger] frame_pos(d, start, i as nat))
                &&& image_info_at(info.frame_infos@[i], d, frame_pos(d, start, i as nat))
            }
            &&& info.sequence_end_position == frame_pos(d, start, info.frame_count as nat)
        },
        (r is Ok) == seq_ok(data@, *old(pos) as int),
        r is Err ==> r->Err_0 == MapError::Io || r->Err_0 == MapError::InvalidData,
{
    let ghost p = *pos as int;
    let mut frame_count: i32 = 0;
    let mut stamp = read_i32(data, pos)?;
    if stamp == 8 {
        stamp = read_i32(data, pos)?;
    }
    if stamp == 0 {
        frame_count = read_i32(data, pos)?;
        let _reserved = read_i32(data, pos)?;
        if frame_count < 0 {
            return Err(MapError::InvalidData);
        }
    }
    let start = *pos;
    let ghost d = data@;
    let mut frames: Vec<ImageInfo> = Vec::new();
    let mut i: i32 = 0;
    while i < frame_count
        invariant
            0 <= i <= frame_count,
            d == data@,
            frames@.len() == i,
            *pos == frame_pos(d, start as int, i as nat),
            forall|j: int| 0 <= j < i ==> {
                &&& image_info_ok(d, #[trigger] frame_pos(d, start as int, j as nat))
                &&& image_info_at(frames@[j], d, frame_pos(d, start as int, j as nat))
            },
            p == *old(pos),
            start == seq_start(d, p),
            frame_count == seq_count(d, p),
            start <= d.len(),
            forall|j: int| 0 <= j < i ==> #[trigger] frame_ok(d, start as int, j as nat),
        decreases frame_count - i,
    {
        let info = match get_image_info(data, pos) {
            Ok(info) => info,
            Err(e) => {
                proof {
                    assert(!frame_ok(d, start as int, i as nat));
                }
                return Err(e);
            },
        };
        if seek_by(pos, info.size_bytes).is_err() {
            proof {
                assert(!frame_ok(d, start as int, i as nat));
            }
            return Err(MapError::Io);
        }
        frames.push(info);
        i = i + 1;
    }
    let end = *pos;
    *pos = start;
    Ok(SequenceInfo {
        sequence_start_position: start,
        sequence_end_position: end,
        frame_count,
        frame_infos: frames,
    })
}

/// The sheet in which every frame of a sequence is drawn: the reach of the
/// frames left of and above their origins (`rect_x`, `rect_y`) and the size.
#[derive(Debug, Clone, Copy, PartialEq, Eq, Structural)]
pub struct SequenceLayout {
    pub rect_x: i64,
    pub rect_y: i64,
    pub rect_w: i64,
    pub rect_h: i64,
}

/// Largest reach, and at least 1, among the first `k` frames in one direction:
/// 0 left, 1 right, 2 up, 3 down of the origin.
pub open spec fn max_reach(frames: Seq<ImageInfo>, dir: int, k: nat) -> int
    decreases k,
{
    if k == 0 {
        1
    } else {
        let f = frames[k - 1];
        let v = if dir == 0 {
            f.origin_x as int
        } else if dir == 1 {
            f.width - f.origin_x
        } else if dir == 2 {
            f.origin_y as int
        } else {
            f.height - f.origin_y
        };
        let m = max_reach(frames, dir, (k - 1) as nat);
        if v > m { v } else { m }
    }
}

/// The layout of a sequence: a single frame keeps its own size; several share
/// a sheet wide and high enough for every frame placed by its origin.
pub open spec fn layout_of(frames: Seq<ImageInfo>, l: SequenceLayout) -> bool {
    let n = frames.len();
    &&& l.rect_x == max_reach(frames, 0, n)
    &&& l.rect_y == max_reach(frames, 2, n)
    &&& l.rect_w == (if n == 1 { frames[0].width as int } else { max_reach(frames, 0, n) + max_reach(frames, 1, n) })
    &&& l.rect_h == (if n == 1 { frames[0].height as int } else { max_reach(frames, 2, n) + max_reach(frames, 3, n) })
}

/// Computes the sheet layout of a sequence of frames.
pub fn sequence_layout(frames: &Vec<ImageInfo>) -> (l: SequenceLayout)
    requires
        frames@.len() > 0,
    ensures
        layout_of(frames@, l),
{
    let mut max_left: i64 = 1;
    let mut max_right: i64 = 1;
    let mut max_up: i64 = 1;
    let mut max_down: i64 = 1;
    let mut i: usize = 0;
    while i < frames.len()
        invariant
            i <= frames@.len(),
            max_left == max_reach(frames@, 0, i as nat),
            max_right == max_reach(frames@, 1, i as nat),
            max_up == max_reach(frames@, 2, i as nat),
            max_down == max_reach(frames@, 3, i as nat),
            -0x8000_0000 <= max_left <= 0x7fff_ffff,
            -0x1_0000_0000 <= max_right <= 0x1_0000_0000,
            -0x8000_0000 <= max_up <= 0x7fff_ffff,
            -0x1_0000_0000 <= max_down <= 0x1_0000_0000,
        decreases frames@.len() - i,
    {
        let f = frames[i];
        let left = f.origin_x as i64;
        let right = f.width as i64 - f.origin_x as i64;
        let up = f.origin_y as i64;
        let down = f.height as i64 - f.origin_y as i64;
        if right > max_right {
            max_right = right;
        }
        if left > max_left {
            max_left = left;
        }
        if up > max_up {
            max_up = up;
        }
        if down > max_down {
            max_down = down;
        }
        i = i + 1;
    }
    let single = frames.len() == 1;
    SequenceLayout {
        rect_x: max_left,
        rect_y: max_up,
        rect_w: if single { frames[0].width as i64 } else { max_left + max_right },
        rect_h: if single { frames[0].height as i64 } else { max_up + max_down },
    }
}

/// Where a frame sits in its sheet: at the corner for a lone frame, else shifted
/// so that its origin meets the sheet's.
pub open spec fn frame_offset(l: SequenceLayout, frame: ImageInfo, single: bool) -> (int, int) {
    if single { (0, 0) } else { (l.rect_x - frame.origin_x, l.rect_y - frame.origin_y) }
}

/// The frame's pixels fit in the sheet at its offset.
pub open spec fn frame_in_sheet(l: SequenceLayout, frame: ImageInfo, single: bool) -> bool {
    let o = frame_offset(l, frame, single);
    &&& 0 <= l.rect_w <= u32::MAX
    &&& 0 <= l.rect_h <= u32::MAX
    &&& o.0 >= 0
    &&& o.1 >= 0
    &&& frame.width >= 0
    &&& frame.height >= 0
    &&& o.0 + frame.width <= l.rect_w
    &&& o.1 + frame.height <= l.rect_h
}

/// Sheet pixel `q` of a frame drawn from `file`: the frame's 5-6-5 pixel,
/// opaque, inside the frame, and `(0, 0, 0, 0)` elsewhere.
pub open spec fn sheet_pixel(file: Seq<u8>, frame: ImageInfo, l: SequenceLayout, single: bool, q: int) -> Pixel {
    let o = frame_offset(l, frame, single);
    let fx = q % (l.rect_w as int) - o.0;
    let fy = q / (l.rect_w as int) - o.1;
    let v = le_u16(file, frame.image_start_position + 2 * (fy * frame.width + fx)) as u16;
    if 0 <= fx < frame.width && 0 <= fy < frame.height {
        Pixel { r: rgb565_red(v) as u8, g: rgb565_green(v) as u8, b: rgb565_blue(v) as u8, a: 255 }
    } else {
        Pixel { r: 0, g: 0, b: 0, a: 0 }
    }
}

/// Draws one frame of a sequence into a sheet of the sequence's layout, its
/// pixels read from the file where the frame records them. A frame that does
/// not fit its sheet is refused as invalid data.
pub fn render_sequence_frame(file: &[u8], frame: &ImageInfo, layout: SequenceLayout, single: bool) -> (r: Result<Canvas, MapError>)
    ensures
        !frame_in_sheet(layout, *frame, single) ==> r == Err::<Canvas, MapError>(MapError::InvalidData),
        frame_in_sheet(layout, *frame, single) && layout.rect_w * layout.rect_h <= usize::MAX ==> (
            (r is Ok) == (frame.width * frame.height == 0 || frame.image_start_position + 2 * frame.width * frame.height <= file@.len())),
        r is Ok ==> {
            let c = r->Ok_0;
            &&& c.wf()
            &&& c.width == layout.rect_w
            &&& c.height == layout.rect_h
            &&& forall|q: int| 0 <= q < c.pixels@.len() ==> #[trigger] c.pixels@[q] == sheet_pixel(file@, *frame, layout, single, q)
        },
{
    let (oxw, oyw): (i128, i128) = if single {
        (0, 0)
    } else {
        (layout.rect_x as i128 - frame.origin_x as i128, layout.rect_y as i128 - frame.origin_y as i128)
    };
    if !(0 <= layout.rect_w && layout.rect_w <= u32::MAX as i64 && 0 <= layout.rect_h && layout.rect_h <= u32::MAX as i64
        && oxw >= 0 && oyw >= 0 && frame.width >= 0 && frame.height >= 0 && oxw <= layout.rect_w as i128
        && oyw <= layout.rect_h as i128 && oxw + frame.width as i128 <= layout.rect_w as i128
        && oyw + frame.height as i128 <= layout.rect_h as i128) {
        return Err(MapError::InvalidData);
    }
    let ox = oxw as i64;
    let oy = oyw as i64;
    let w = layout.rect_w as u32;
    let h = layout.rect_h as u32;
    assert(w as u64 * h as u64 <= 0xffff_ffff * 0xffff_ffff) by (nonlinear_arith)
        requires w <= 0xffff_ffff, h <= 0xffff_ffff;
    if w as u64 * h as u64 > usize::MAX as u64 {
        return Err(MapError::InvalidData);
    }
    let mut canvas = Canvas::new(w, h);
    let ghost wi = w as int;
    let ghost fw = frame.width as int;
    let ghost start = frame.image_start_position as int;
    let mut pos: u64 = frame.image_start_position;
    let mut y: i32 = 0;
    while y < frame.height
        invariant
            canvas.wf(),
            canvas.width == w,
            canvas.height == h,
            wi == w,
            fw == frame.width,
            start == frame.image_start_position,
            w == layout.rect_w,
            h == layout.rect_h,
            frame_in_sheet(layout, *frame, single),
            ox == frame_offset(layout, *frame, single).0,
            oy == frame_offset(layout, *frame, single).1,
            0 <= y <= frame.height,
            pos == start + 2 * (y * fw),
            y > 0 && fw > 0 ==> pos <= file@.len(),
            forall|q: int| 0 <= q < canvas.pixels@.len() ==> #[trigger] canvas.pixels@[q] == (
                if q / wi - oy < y && 0 <= q / wi - oy && 0 <= q % wi - ox < fw {
                    sheet_pixel(file@, *frame, layout, single, q)
                } else {
                    Pixel { r: 0, g: 0, b: 0, a: 0 }
                }),
        decreases frame.height - y,
    {
        let mut x: i32 = 0;
        while x < frame.width
            invariant
                canvas.wf(),
                canvas.width == w,
                canvas.height == h,
                wi == w,
                fw == frame.width,
                start == frame.image_start_position,
                w == layout.rect_w,
                h == layout.rect_h,
                frame_in_sheet(layout, *frame, single),
                ox == frame_offset(layout, *frame, single).0,
                oy == frame_offset(layout, *frame, single).1,
                0 <= y < frame.height,
                0 <= x <= frame.width,
                pos == start + 2 * (y * fw + x),
                (y > 0 && fw > 0) || x > 0 ==> pos <= file@.len(),
                forall|q: int| 0 <= q < canvas.pixels@.len() ==> #[trigger] canvas.pixels@[q] == (
                    if (q / wi - oy < y || (q / wi - oy == y && q % wi - ox < x)) && 0 <= q / wi - oy && 0 <= q % wi - ox < fw {
                        sheet_pixel(file@, *frame, layout, single, q)
                    } else {
                        Pixel { r: 0, g: 0, b: 0, a: 0 }
                    }),
            decreases frame.width - x,
        {
            let ghost p0 = pos as int;
            let pixel = match read_u16(file, &mut pos) {
                Ok(v) => v,
                Err(e) => {
                    proof {
                        assert((y + 1) * fw >= y * fw + x + 1) by (nonlinear_arith)
                            requires x < fw, y >= 0;
                        assert(frame.height * fw >= (y + 1) * fw) by (nonlinear_arith)
                            requires y + 1 <= frame.height, fw >= 0;
                        assert(2 * frame.width * frame.height == 2 * (frame.height * fw)) by (nonlinear_arith)
                            requires fw == frame.width;
                        assert(frame.width * frame.height == frame.height * fw) by (nonlinear_arith)
                            requires fw == frame.width;
                    }
                    return Err(e);
                },
            };
            let color = rgb16_565_produce_color(pixel);
            let final_x = (ox + x as i64) as u32;
            let final_y = (oy + y as i64) as u32;
            let ghost before = canvas.pixels@;
            let ghost t = pixel_index(wi, final_x as int, final_y as int);
            proof {
                crate::canvas::lemma_pixel_index_in_bounds(wi, h as int, final_x as int, final_y as int);
                vstd::arithmetic::div_mod::lemma_fundamental_div_mod_converse(t, wi, final_y as int, final_x as int);
                assert(p0 == start + 2 * (y * fw + x));
            }
            canvas.put_pixel(final_x, final_y, Pixel { r: color.r, g: color.g, b: color.b, a: 255 });
            proof {
                assert forall|q: int| 0 <= q < canvas.pixels@.len() implies #[trigger] canvas.pixels@[q] == (
                    if (q / wi - oy < y || (q / wi - oy == y && q % wi - ox < x + 1)) && 0 <= q / wi - oy && 0 <= q % wi - ox < fw {
                        sheet_pixel(file@, *frame, layout, single, q)
                    } else {
                        Pixel { r: 0, g: 0, b: 0, a: 0 }
                    }) by {
                    if q != t {
                        assert(canvas.pixels@[q] == before[q]);
                        vstd::arithmetic::div_mod::lemma_fundamental_div_mod(q, wi);
                        if q / wi == final_y as int && q % wi == final_x as int {
                            assert(wi * (q / wi) == (q / wi) * wi) by (nonlinear_arith);
                            assert(q == t);
                        }
                    }
                }
            }
            x = x + 1;
        }
        proof {
            assert((y + 1) * fw == y * fw + fw) by (nonlinear_arith);
        }
        y = y + 1;
    }
    proof {
        assert(2 * frame.width * frame.height == 2 * (frame.height * fw)) by (nonlinear_arith)
            requires fw == frame.width;
        assert(frame.width * frame.height == frame.height * fw) by (nonlinear_arith)
            requires fw == frame.width;
        if fw == 0 || frame.height == 0 {
            assert(frame.height * fw == 0) by (nonlinear_arith)
                requires fw == 0 || frame.height == 0;
        }
        assert forall|q: int| 0 <= q < canvas.pixels@.len() implies #[trigger] canvas.pixels@[q] == sheet_pixel(file@, *frame, layout, single, q) by {
            let fx = q % wi - ox;
            let fy = q / wi - oy;
            if !(0 <= fx < fw && 0 <= fy < frame.height) {
                assert(sheet_pixel(file@, *frame, layout, single, q) == Pixel { r: 0, g: 0, b: 0, a: 0 });
            }
        }
    }
    Ok(canvas)
}

} // verus!
