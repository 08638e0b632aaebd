use crate::atlas::Color;
use vstd::prelude::*;

verus! {

/// How a rasterised bitmap stores its pixels.
#[derive(Clone, Copy, Debug, PartialEq, Eq, Structural)]
pub enum PixelFormat {
    /// One byte of coverage per pixel, tinted when drawn.
    Mask,
    /// Four bytes of premultiplied RGBA per pixel.
    Color,
    /// Four bytes of per-channel coverage per pixel, drawn as colour.
    SubpixelMask,
}

impl PixelFormat {
    /// Whether the pixels are coverage to be tinted rather than colours.
    pub fn is_colorable(&self) -> (r: bool)
        ensures
            r == (*self == PixelFormat::Mask),
    {
        match self {
            PixelFormat::Mask => true,
            _ => false,
        }
    }
}

pub open spec fn transparent() -> Color {
    Color { r: 0, g: 0, b: 0, a: 0 }
}

/// Pixel `i` of a bitmap whose bytes are `data`: a mask pixel takes the tint's
/// channels with its coverage as alpha; a four-byte pixel takes its bytes.
/// Pixels past the end of `data` stay transparent.
pub open spec fn pixel_at(format: PixelFormat, data: Seq<u8>, tint: Color, i: int) -> Color {
    match format {
        PixelFormat::Mask => if i < data.len() {
            Color { r: tint.r, g: tint.g, b: tint.b, a: data[i] }
        } else {
            transparent()
        },
        _ => if 4 * i + 4 <= data.len() {
            Color { r: data[4 * i], g: data[4 * i + 1], b: data[4 * i + 2], a: data[4 * i + 3] }
        } else {
            transparent()
        },
    }
}

/// The `width * height` pixels of a bitmap, row by row. A mask's pixels carry
/// straight (not premultiplied) alpha; the other formats' are premultiplied.
pub fn glyph_pixels(format: PixelFormat, data: &Vec<u8>, tint: Color, width: u32, height: u32) -> (r:
    Vec<Color>)
    requires
        width * height <= usize::MAX,
    ensures
        r@.len() == width * height,
        forall|i: int| 0 <= i < r@.len() ==> #[trigger] r@[i] == pixel_at(format, data@, tint, i),
{
    let n: usize = width as usize * height as usize;
    let mut out: Vec<Color> = Vec::new();
    let mut i: usize = 0;
    while i < n
        invariant
            n == width * height,
            0 <= i <= n,
            out@.len() == i,
            forall|j: int| 0 <= j < i ==> #[trigger] out@[j] == pixel_at(format, data@, tint, j),
        decreases n - i,
    {
        let px = match format {
            PixelFormat::Mask => if i < data.len() {
                Color { r: tint.r, g: tint.g, b: tint.b, a: data[i] }
            } else {
                Color { r: 0, g: 0, b: 0, a: 0 }
            },
            _ => if i <= (data.len() / 4) && data.len() - 4 * i >= 4 {
                Color { r: data[4 * i], g: data[4 * i + 1], b: data[4 * i + 2], a: data[4 * i + 3] }
            } else {
                Color { r: 0, g: 0, b: 0, a: 0 }
            },
        };
        out.push(px);
        i = i + 1;
    }
    out
}

} // verus!
