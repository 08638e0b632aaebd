use crate::cache::GlyphPlacement;
use crate::pixels::PixelFormat;
use cosmic_text::{CacheKey, FontSystem, SwashCache, SwashContent};
use vstd::prelude::*;

verus! {

#[verifier::external_type_specification]
#[verifier::external_body]
pub struct ExCacheKey(CacheKey);

#[verifier::external_type_specification]
#[verifier::external_body]
pub struct ExFontSystem(FontSystem);

#[verifier::external_type_specification]
#[verifier::external_body]
pub struct ExSwashCache(SwashCache);

/// A rasterised glyph bitmap: placement, pixel format and raw bytes.
pub struct RasterImage {
    pub placement: GlyphPlacement,
    pub format: PixelFormat,
    pub data: Vec<u8>,
}

/// Relies on `SwashCache::get_image_uncached`: rasterises the glyph, or gives
/// `None` when it cannot. What comes back depends on the fonts loaded, so
/// nothing is stated of it.
#[verifier::external_body]
pub(crate) fn rasterize(swash_cache: &mut SwashCache, font_system: &mut FontSystem, key: CacheKey) -> (r:
    Option<RasterImage>) {
    swash_cache.get_image_uncached(font_system, key).map(|i: cosmic_text::SwashImage| {
        let p = i.placement;
        let format = match i.content {
            SwashContent::Mask => PixelFormat::Mask,
            SwashContent::Color => PixelFormat::Color,
            SwashContent::SubpixelMask => PixelFormat::SubpixelMask,
        };
        let placement = GlyphPlacement { left: p.left, top: p.top, width: p.width, height: p.height };
        RasterImage { placement, format, data: i.data }
    })
}

} // verus!
