use egui_cosmic_glue::atlas::{AllocOutcome, Color, GlyphImage, GlyphRaster, Lookup, TextureAtlas};
use egui_cosmic_glue::cache::GlyphPlacement;
use egui_cosmic_glue::pixels::{glyph_pixels, PixelFormat};

const BLACK: Color = Color { r: 0, g: 0, b: 0, a: 255 };

fn raster(width: u32, height: u32) -> Option<GlyphRaster> {
    Some(GlyphRaster { placement: GlyphPlacement { left: 1, top: 2, width, height }, colorable: true })
}

fn placed(outcome: AllocOutcome) -> GlyphImage {
    match outcome {
        AllocOutcome::Placed(img) => img,
        other => panic!("expected a placed glyph, got {:?}", other),
    }
}

#[test]
fn grow_keeps_first_glyph_in_place() {
    let mut atlas = TextureAtlas::new(2048, BLACK);
    assert_eq!(atlas.atlas_texture_size(), 256);
    let a = placed(atlas.alloc_glyph(1, raster(200, 200)));
    assert_eq!((a.rect.min_x, a.rect.min_y, a.width, a.height), (0, 0, 200, 200));
    assert_eq!(a.rect.max_x - a.rect.min_x, 200);
    assert_eq!(a.atlas_side, 256);
    let b = placed(atlas.alloc_glyph(2, raster(200, 200)));
    assert_eq!(atlas.atlas_texture_size(), 512);
    assert_eq!(b.atlas_side, 512);
    assert!(!b.rect.overlaps_rect(&a.rect));
    assert_eq!((b.rect.min_x, b.rect.min_y), (256, 0));
    match atlas.cached_glyph(1) {
        Lookup::Cached(again) => {
            assert_eq!((again.rect.min_x, again.rect.min_y, again.width, again.height), (0, 0, 200, 200));
            assert_eq!(again.rect, a.rect);
            assert_eq!(again.atlas_side, 512);
        }
        other => panic!("expected glyph 1 cached, got {:?}", other),
    }
}

fn fill_four_rows(atlas: &mut TextureAtlas) {
    for key in 1..=4u64 {
        let img = placed(atlas.alloc_glyph(key, raster(256, 64)));
        assert_eq!(img.rect.min_y, 64 * (key as i32 - 1));
    }
}

#[test]
fn evicts_oldest_glyph_first() {
    let mut atlas = TextureAtlas::new(256, BLACK);
    fill_four_rows(&mut atlas);
    atlas.trim();
    let e = placed(atlas.alloc_glyph(5, raster(256, 64)));
    assert_eq!((e.rect.min_x, e.rect.min_y), (0, 0));
    assert_eq!(atlas.peek(1), None);
    assert!(atlas.peek(2).is_some());
    assert!(atlas.peek(3).is_some());
    assert!(atlas.peek(4).is_some());
    assert_eq!(atlas.peek_oldest(), Some(2));
    assert_eq!(atlas.atlas_texture_size(), 256);
}

#[test]
fn in_use_glyph_is_never_evicted() {
    // glyph 1 is the oldest and is in use: nothing may be evicted
    let mut busy = TextureAtlas::new(256, BLACK);
    fill_four_rows(&mut busy);
    assert!(busy.is_in_use(1));
    assert_eq!(busy.alloc_glyph(5, raster(256, 64)), AllocOutcome::NoRoom);
    for key in 1..=4u64 {
        assert!(busy.peek(key).is_some());
    }
}

#[test]
fn eviction_stops_at_first_in_use_glyph() {
    let mut atlas = TextureAtlas::new(256, BLACK);
    fill_four_rows(&mut atlas);
    atlas.trim();
    assert!(matches!(atlas.cached_glyph(2), Lookup::Cached(_)));
    // order is now 1, 3, 4, 2: glyphs 1, 3 and 4 go before two free rows
    // are adjacent; glyph 2, in use, stays
    let e = placed(atlas.alloc_glyph(5, raster(256, 128)));
    assert_eq!(atlas.peek(1), None);
    assert_eq!(atlas.peek(3), None);
    assert_eq!(atlas.peek(4), None);
    assert!(atlas.peek(2).is_some());
    assert_eq!((e.rect.min_y, e.height), (128, 128));
    assert_eq!(atlas.peek_oldest(), Some(2));
}

#[test]
fn empty_glyph_is_cached_once() {
    let mut atlas = TextureAtlas::new(2048, BLACK);
    assert_eq!(atlas.cached_glyph(9), Lookup::Missing);
    assert_eq!(atlas.alloc_glyph(9, raster(0, 12)), AllocOutcome::Skipped);
    assert_eq!(atlas.cached_glyph(9), Lookup::Empty);
    assert_eq!(atlas.peek(9), Some(None));
    assert!(!atlas.is_in_use(9));
    assert!(atlas.packed_glyphs().is_empty());
}

#[test]
fn failed_raster_is_not_cached() {
    let mut atlas = TextureAtlas::new(2048, BLACK);
    assert_eq!(atlas.alloc_glyph(3, None), AllocOutcome::Skipped);
    assert_eq!(atlas.cached_glyph(3), Lookup::Missing);
    assert_eq!(atlas.peek_oldest(), None);
}

#[test]
fn cache_hit_returns_same_image_and_marks_in_use() {
    let mut atlas = TextureAtlas::new(2048, BLACK);
    let img = placed(atlas.alloc_glyph(4, raster(10, 12)));
    assert_eq!((img.left, img.top, img.width, img.height, img.colorable), (1, 2, 10, 12, true));
    atlas.trim();
    assert!(!atlas.is_in_use(4));
    assert_eq!(atlas.cached_glyph(4), Lookup::Cached(img));
    assert!(atlas.is_in_use(4));
}

#[test]
fn oldest_stays_until_promoted() {
    let mut atlas = TextureAtlas::new(2048, BLACK);
    for key in [11u64, 12, 13] {
        placed(atlas.alloc_glyph(key, raster(8, 8)));
    }
    assert_eq!(atlas.peek_oldest(), Some(11));
    assert!(matches!(atlas.cached_glyph(13), Lookup::Cached(_)));
    assert!(matches!(atlas.cached_glyph(12), Lookup::Cached(_)));
    assert_eq!(atlas.peek_oldest(), Some(11));
    assert!(matches!(atlas.cached_glyph(11), Lookup::Cached(_)));
    assert_eq!(atlas.peek_oldest(), Some(13));
    let order: Vec<u64> = atlas.packed_glyphs().iter().map(|(k, _)| *k).collect();
    assert_eq!(order, vec![13, 12, 11]);
}

#[test]
fn growth_stops_at_maximum() {
    let mut atlas = TextureAtlas::new(300, BLACK);
    assert_eq!(atlas.atlas_texture_size(), 256);
    atlas.grow();
    assert_eq!(atlas.atlas_texture_size(), 300);
    assert_eq!(atlas.alloc_glyph(1, raster(301, 10)), AllocOutcome::NoRoom);
    assert_eq!(atlas.atlas_texture_size(), 300);
    assert_eq!(atlas.peek(1), None);
}

#[test]
fn full_atlas_at_maximum_reports_no_room() {
    let mut atlas = TextureAtlas::new(256, BLACK);
    placed(atlas.alloc_glyph(1, raster(256, 256)));
    assert_eq!(atlas.alloc_glyph(2, raster(8, 8)), AllocOutcome::NoRoom);
    assert_eq!(atlas.atlas_texture_size(), 256);
}

#[test]
fn grow_doubles_side() {
    let mut atlas = TextureAtlas::new(4096, BLACK);
    let img = placed(atlas.alloc_glyph(1, raster(30, 40)));
    atlas.grow();
    assert_eq!(atlas.atlas_texture_size(), 512);
    atlas.grow();
    assert_eq!(atlas.atlas_texture_size(), 1024);
    assert_eq!(atlas.packed_glyphs()[0].1.rect, img.rect);
}

#[test]
fn small_maximum_caps_initial_side() {
    let atlas = TextureAtlas::new(100, BLACK);
    assert_eq!(atlas.atlas_texture_size(), 100);
    assert_eq!(atlas.max_texture_side(), 100);
    assert_eq!(atlas.default_color(), BLACK);
}

#[test]
fn maximum_is_bounded_by_packer_limit() {
    let mut atlas = TextureAtlas::new(1 << 20, BLACK);
    assert_eq!(atlas.max_texture_side(), 46340);
    atlas.update_max_texture_side(8192);
    assert_eq!(atlas.max_texture_side(), 8192);
    atlas.update_max_texture_side(70000);
    assert_eq!(atlas.max_texture_side(), 46340);
}

#[test]
fn packed_glyphs_skip_empty_entries() {
    let mut atlas = TextureAtlas::new(2048, BLACK);
    placed(atlas.alloc_glyph(1, raster(5, 5)));
    atlas.alloc_glyph(2, raster(5, 0));
    placed(atlas.alloc_glyph(3, raster(6, 7)));
    let packed = atlas.packed_glyphs();
    assert_eq!(packed.len(), 2);
    assert_eq!(packed[0].0, 1);
    assert_eq!(packed[1].0, 3);
    assert_eq!(packed[1].1.placement.width, 6);
    assert!(!packed[0].1.rect.overlaps_rect(&packed[1].1.rect));
}

#[test]
fn tint_follows_colorability() {
    let red = Color { r: 255, g: 0, b: 0, a: 255 };
    let mut atlas = TextureAtlas::new(2048, BLACK);
    let mask = placed(atlas.alloc_glyph(1, raster(4, 4)));
    assert_eq!(mask.tint(None), BLACK);
    assert_eq!(mask.tint(Some(red)), red);
    let emoji = placed(atlas.alloc_glyph(
        2,
        Some(GlyphRaster { placement: GlyphPlacement { left: 0, top: 0, width: 4, height: 4 }, colorable: false }),
    ));
    assert_eq!(emoji.tint(Some(red)), Color { r: 255, g: 255, b: 255, a: 255 });
}

#[test]
fn screen_position_adds_bearings() {
    let mut atlas = TextureAtlas::new(2048, BLACK);
    let img = placed(atlas.alloc_glyph(1, raster(4, 4)));
    // left 1, top 2
    assert_eq!(img.screen_position(10, 3, 20), (11, 21));
    assert_eq!(img.screen_position(i32::MAX, 0, i32::MIN), (i32::MAX as i64 + 1, i32::MIN as i64 - 2));
}

#[test]
fn mask_pixels_take_tint_and_coverage() {
    let tint = Color { r: 10, g: 20, b: 30, a: 255 };
    let px = glyph_pixels(PixelFormat::Mask, &vec![0, 128, 255], tint, 2, 2);
    assert_eq!(px.len(), 4);
    assert_eq!(px[1], Color { r: 10, g: 20, b: 30, a: 128 });
    assert_eq!(px[2], Color { r: 10, g: 20, b: 30, a: 255 });
    assert_eq!(px[3], Color { r: 0, g: 0, b: 0, a: 0 });
}

#[test]
fn color_pixels_take_their_bytes() {
    let data = vec![1, 2, 3, 4, 5, 6, 7, 8, 9];
    let px = glyph_pixels(PixelFormat::Color, &data, BLACK, 3, 1);
    assert_eq!(px, vec![
        Color { r: 1, g: 2, b: 3, a: 4 },
        Color { r: 5, g: 6, b: 7, a: 8 },
        Color { r: 0, g: 0, b: 0, a: 0 },
    ]);
    let sub = glyph_pixels(PixelFormat::SubpixelMask, &data, BLACK, 1, 1);
    assert_eq!(sub, vec![Color { r: 1, g: 2, b: 3, a: 4 }]);
    assert!(PixelFormat::Mask.is_colorable());
    assert!(!PixelFormat::Color.is_colorable());
}

#[test]
fn glyph_wider_than_any_surface_reports_no_room() {
    let mut atlas = TextureAtlas::new(1 << 20, BLACK);
    assert_eq!(atlas.alloc_glyph(1, raster(70000, 4)), AllocOutcome::NoRoom);
    assert_eq!(atlas.atlas_texture_size(), 256);
    assert_eq!(atlas.peek(1), None);
}

#[test]
fn glyph_near_largest_side_is_placed_after_growth() {
    let mut atlas = TextureAtlas::new(1 << 20, BLACK);
    let img = placed(atlas.alloc_glyph(1, raster(46000, 46000)));
    assert_eq!(atlas.atlas_texture_size(), 46340);
    assert_eq!((img.rect.min_x, img.rect.min_y, img.width, img.height), (0, 0, 46000, 46000));
    assert_eq!(atlas.alloc_glyph(2, raster(46000, 46000)), AllocOutcome::NoRoom);
}
