use vstd::prelude::*;
use crate::color::{blend_spec, blend_channel};

verus! {

/// Width of a tile's lozenge on the canvas, in pixels.
pub const TILE_WIDTH: u32 = 62;

/// Height of a tile's lozenge on the canvas, in pixels.
pub const TILE_HEIGHT: u32 = 32;

/// One RGBA pixel.
#[derive(Debug, Clone, Copy, PartialEq, Eq, Structural)]
pub struct Pixel {
    pub r: u8,
    pub g: u8,
    pub b: u8,
    pub a: u8,
}

/// A raster image, row-major: pixel `(x, y)` is at index `y * width + x`.
#[derive(Debug)]
pub struct Canvas {
    pub width: u32,
    pub height: u32,
    pub pixels: Vec<Pixel>,
}

/// Index of pixel `(x, y)` in a canvas of the given width.
pub open spec fn pixel_index(width: int, x: int, y: int) -> int {
    y * width + x
}

/// A lemma: a pixel inside the canvas has an index inside its pixel vector.
pub proof fn lemma_pixel_index_in_bounds(width: int, height: int, x: int, y: int)
    requires
        0 <= x < width,
        0 <= y < height,
    ensures
        0 <= pixel_index(width, x, y) < width * height,
{
    assert(y * width + x < width * height) by (nonlinear_arith)
        requires 0 <= x < width, 0 <= y < height;
    assert(0 <= y * width) by (nonlinear_arith)
        requires 0 <= y, 0 <= width;
}

impl Canvas {
    /// The pixel vector covers the whole canvas.
    pub open spec fn wf(&self) -> bool {
        self.pixels@.len() == self.width * self.height
    }

    /// A canvas of the given size whose every pixel is `(0, 0, 0, 0)`.
    pub fn new(width: u32, height: u32) -> (c: Canvas)
        requires
            width * height <= usize::MAX,
        ensures
            c.wf(),
            c.width == width,
            c.height == height,
            forall|i: int| 0 <= i < c.pixels@.len() ==> #[trigger] c.pixels@[i] == (Pixel { r: 0, g: 0, b: 0, a: 0 }),
    {
        let n: usize = width as usize * height as usize;
        let mut pixels: Vec<Pixel> = Vec::new();
        let mut i: usize = 0;
        while i < n
            invariant
                i <= n,
                pixels@.len() == i,
                forall|j: int| 0 <= j < i ==> #[trigger] pixels@[j] == (Pixel { r: 0, g: 0, b: 0, a: 0 }),
            decreases n - i,
        {
            pixels.push(Pixel { r: 0, g: 0, b: 0, a: 0 });
            i = i + 1;
        }
        Canvas { width, height, pixels }
    }

    /// The pixel at `(x, y)`.
    pub fn get_pixel(&self, x: u32, y: u32) -> (p: Pixel)
        requires
            self.wf(),
            x < self.width,
            y < self.height,
        ensures
            p == self.pixels@[pixel_index(self.width as int, x as int, y as int)],
    {
        let _len = self.pixels.len();
        proof {
            lemma_pixel_index_in_bounds(self.width as int, self.height as int, x as int, y as int);
            assert(0 <= y * self.width <= y * self.width + x) by (nonlinear_arith)
                requires 0 <= x, 0 <= y, 0 <= self.width;
        }
        self.pixels[y as usize * self.width as usize + x as usize]
    }

    /// Sets the pixel at `(x, y)`.
    pub fn put_pixel(&mut self, x: u32, y: u32, p: Pixel)
        requires
            old(self).wf(),
            x < old(self).width,
            y < old(self).height,
        ensures
            final(self).wf(),
            final(self).width == old(self).width,
            final(self).height == old(self).height,
            final(self).pixels@ == old(self).pixels@.update(pixel_index(old(self).width as int, x as int, y as int), p),
    {
        let _len = self.pixels.len();
        proof {
            lemma_pixel_index_in_bounds(self.width as int, self.height as int, x as int, y as int);
            assert(0 <= y * self.width <= y * self.width + x) by (nonlinear_arith)
                requires 0 <= x, 0 <= y, 0 <= self.width;
        }
        let i = y as usize * self.width as usize + x as usize;
        self.pixels.set(i, p);
    }
}

/// Result of compositing `src` over `dst`: a transparent source leaves the
/// destination, an opaque one replaces it, anything between blends each colour
/// channel linearly and yields an opaque pixel.
pub open spec fn over(src: Pixel, dst: Pixel) -> Pixel {
    if src.a == 0 {
        dst
    } else if src.a == 255 {
        src
    } else {
        Pixel {
            r: blend_spec(src.r as int, dst.r as int, src.a as int) as u8,
            g: blend_spec(src.g as int, dst.g as int, src.a as int) as u8,
            b: blend_spec(src.b as int, dst.b as int, src.a as int) as u8,
            a: 255,
        }
    }
}

/// Composites `src` over `dst`.
pub fn blend_pixel(src: Pixel, dst: Pixel) -> (r: Pixel)
    ensures
        r == over(src, dst),
{
    if src.a == 0 {
        dst
    } else if src.a == 255 {
        src
    } else {
        Pixel {
            r: blend_channel(src.r, dst.r, src.a),
            g: blend_channel(src.g, dst.g, src.a),
            b: blend_channel(src.b, dst.b, src.a),
            a: 255,
        }
    }
}

/// Compositing a fully transparent pixel leaves the destination as it was, a
/// fully opaque one replaces it, and a half-transparent one (alpha 128) mixes
/// each channel as `(src * 128 + dst * 127) / 255`.
pub proof fn lemma_blend_alpha_cases(src: Pixel, dst: Pixel)
    ensures
        src.a == 0 ==> over(src, dst) == dst,
        src.a == 255 ==> over(src, dst) == src,
        src.a == 128 ==> {
            &&& over(src, dst).r == (src.r * 128 + dst.r * 127) / 255
            &&& over(src, dst).g == (src.g * 128 + dst.g * 127) / 255
            &&& over(src, dst).b == (src.b * 128 + dst.b * 127) / 255
        },
{
    if src.a == 128 {
        let r = (src.r * 128 + dst.r * 127) / 255;
        assert(0 <= r <= 255) by (nonlinear_arith)
            requires r == (src.r * 128 + dst.r * 127) / 255, src.r <= 255, dst.r <= 255;
        let g = (src.g * 128 + dst.g * 127) / 255;
        assert(0 <= g <= 255) by (nonlinear_arith)
            requires g == (src.g * 128 + dst.g * 127) / 255, src.g <= 255, dst.g <= 255;
        let b = (src.b * 128 + dst.b * 127) / 255;
        assert(0 <= b <= 255) by (nonlinear_arith)
            requires b == (src.b * 128 + dst.b * 127) / 255, src.b <= 255, dst.b <= 255;
    }
}

} // verus!
