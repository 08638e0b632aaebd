use cosmic_text::fontdb;
use cosmic_text::{CacheKey, CacheKeyFlags, FontSystem, SwashCache};
use egui_cosmic_glue::atlas::{raster_info, AllocOutcome, Color, GlyphRaster, Lookup, TextureAtlas};
use egui_cosmic_glue::cache::GlyphPlacement;
use egui_cosmic_glue::pixels::PixelFormat;
use egui_cosmic_glue::raster::RasterImage;

const WHITE: Color = Color { r: 255, g: 255, b: 255, a: 255 };

fn no_fonts() -> (FontSystem, SwashCache, CacheKey) {
    let fonts = FontSystem::new_with_locale_and_db("en-US".to_string(), fontdb::Database::new());
    let (key, _, _) = CacheKey::new(fontdb::ID::dummy(), 3, 16.0, (0.0, 0.0), fontdb::Weight::NORMAL, CacheKeyFlags::empty());
    (fonts, SwashCache::new(), key)
}

#[test]
fn raster_info_reads_placement_and_format() {
    let placement = GlyphPlacement { left: -1, top: 9, width: 3, height: 4 };
    let mask = Some(RasterImage { placement, format: PixelFormat::Mask, data: vec![0; 12] });
    assert_eq!(raster_info(&mask), Some(GlyphRaster { placement, colorable: true }));
    let color = Some(RasterImage { placement, format: PixelFormat::Color, data: vec![0; 48] });
    assert_eq!(raster_info(&color), Some(GlyphRaster { placement, colorable: false }));
    assert_eq!(raster_info(&None), None);
}

#[test]
fn unrasterisable_glyph_is_not_cached() {
    let (mut fonts, mut swash, key) = no_fonts();
    let mut atlas = TextureAtlas::new(2048, WHITE);
    let (drawn, image) = atlas.alloc_rasterized(7, key, &mut fonts, &mut swash);
    assert!(drawn.is_none());
    assert!(image.is_none());
    assert_eq!(atlas.peek(7), None);
    assert_eq!(atlas.cached_glyph(7), Lookup::Missing);
}

#[test]
fn cached_glyph_is_not_rasterised_again() {
    let (mut fonts, mut swash, key) = no_fonts();
    let mut atlas = TextureAtlas::new(2048, WHITE);
    let raster = GlyphRaster { placement: GlyphPlacement { left: 0, top: 0, width: 5, height: 6 }, colorable: true };
    let placed = match atlas.alloc_glyph(7, Some(raster)) {
        AllocOutcome::Placed(img) => img,
        other => panic!("expected a placed glyph, got {:?}", other),
    };
    atlas.trim();
    let (drawn, image) = atlas.alloc_rasterized(7, key, &mut fonts, &mut swash);
    assert_eq!(drawn, Some(placed));
    assert!(image.is_none());
    assert!(atlas.is_in_use(7));
    assert_eq!(atlas.alloc_glyph(8, Some(GlyphRaster { placement: GlyphPlacement { left: 0, top: 0, width: 0, height: 0 }, colorable: true })), AllocOutcome::Skipped);
    let (drawn, image) = atlas.alloc_rasterized(8, key, &mut fonts, &mut swash);
    assert!(drawn.is_none() && image.is_none());
    assert_eq!(atlas.peek(8), Some(None));
}

#[test]
fn packed_rasters_follow_packed_glyphs() {
    let (mut fonts, mut swash, key) = no_fonts();
    let mut atlas = TextureAtlas::new(2048, WHITE);
    let raster = GlyphRaster { placement: GlyphPlacement { left: 0, top: 0, width: 5, height: 6 }, colorable: true };
    atlas.alloc_glyph(0, Some(raster));
    atlas.alloc_glyph(5, Some(raster));
    let rasters = atlas.packed_rasters(&vec![key], &mut fonts, &mut swash);
    let packed = atlas.packed_glyphs();
    assert_eq!(rasters.len(), 2);
    assert_eq!(rasters[0].0, packed[0].1);
    assert_eq!(rasters[1].0, packed[1].1);
    assert!(rasters[0].1.is_none());
    assert!(rasters[1].1.is_none());
}
