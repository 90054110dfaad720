use vstd::prelude::*;

verus! {

/// Number of pixels in one square tile bitmap (32 by 32).
pub const TILE_PIXEL_NUMBER: usize = 1024;

/// An opaque RGB colour.
#[derive(Debug, Clone, Copy, PartialEq, Eq, Structural)]
pub struct Color {
    pub r: u8,
    pub g: u8,
    pub b: u8,
}

/// Red, green and blue channels of a 16-bit 5-6-5 pixel, each scaled to 8 bits.
pub open spec fn rgb565_red(pixel: u16) -> int {
    (pixel as int / 2048) * 8
}

pub open spec fn rgb565_green(pixel: u16) -> int {
    ((pixel as int / 32) % 64) * 4
}

pub open spec fn rgb565_blue(pixel: u16) -> int {
    (pixel as int % 32) * 8
}

/// Expands a 16-bit 5-6-5 pixel into an 8-bit-per-channel colour.
pub fn rgb16_565_produce_color(pixel: u16) -> (c: Color)
    ensures
        c.r == rgb565_red(pixel),
        c.g == rgb565_green(pixel),
        c.b == rgb565_blue(pixel),
{
    let red: u8 = ((pixel / 2048) * 8) as u8;
    let green: u8 = (((pixel / 32) % 64) * 4) as u8;
    let blue: u8 = ((pixel % 32) * 8) as u8;
    Color { r: red, g: green, b: blue }
}

/// Linear blend of `src` over `dst` with opacity `a` out of 255, truncated.
pub open spec fn blend_spec(src: int, dst: int, a: int) -> int {
    (src * a + dst * (255 - a)) / 255
}

/// Blends one channel of `src` over `dst` with opacity `a`.
pub fn blend_channel(src: u8, dst: u8, a: u8) -> (r: u8)
    ensures
        r == blend_spec(src as int, dst as int, a as int),
{
    let s = src as u32;
    let d = dst as u32;
    let al = a as u32;
    assert(s * al <= 255 * 255) by (nonlinear_arith)
        requires s <= 255, al <= 255;
    assert(d * (255 - al) <= 255 * 255) by (nonlinear_arith)
        requires d <= 255, al <= 255;
    let v = (s * al + d * (255 - al)) / 255;
    assert(v <= 255) by (nonlinear_arith)
        requires v == (s * al + d * (255 - al)) / 255, s <= 255, d <= 255, al <= 255;
    v as u8
}

/// Tint of one tile pixel toward `color`: each channel blends toward the same
/// channel of `color`.
pub open spec fn tinted(base: Color, color: Color, alpha: u8) -> Color {
    Color {
        r: blend_spec(color.r as int, base.r as int, alpha as int) as u8,
        g: blend_spec(color.g as int, base.g as int, alpha as int) as u8,
        b: blend_spec(color.b as int, base.b as int, alpha as int) as u8,
    }
}

/// Tints every pixel of a tile bitmap toward `color` with opacity `alpha`.
pub fn mix_color(canvas: &Vec<Color>, color: Color, alpha: u8) -> (r: Vec<Color>)
    ensures
        r@.len() == canvas@.len(),
        forall|i: int| 0 <= i < canvas@.len() ==> #[trigger] r@[i] == tinted(canvas@[i], color, alpha),
{
    let mut pixels: Vec<Color> = Vec::new();
    let mut i: usize = 0;
    while i < canvas.len()
        invariant
            i <= canvas@.len(),
            pixels@.len() == i,
            forall|j: int| 0 <= j < i ==> #[trigger] pixels@[j] == tinted(canvas@[j], color, alpha),
        decreases canvas@.len() - i,
    {
        let base = canvas[i];
        let r = blend_channel(color.r, base.r, alpha);
        let g = blend_channel(color.g, base.g, alpha);
        let b = blend_channel(color.b, base.b, alpha);
        pixels.push(Color { r, g, b });
        i = i + 1;
    }
    pixels
}

} // verus!
