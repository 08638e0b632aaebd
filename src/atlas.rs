use crate::cache::{
    Entry, GlyphCache, GlyphPlacement, GlyphState, after_promote, after_put, cache_entries,
    cache_new, cache_peek, cache_peek_lru, cache_pop_lru, cache_promote, cache_put, cache_to_vec,
    keys_unique, lemma_after_put, lemma_lookup, lookup,
};
use crate::geometry::{Rect, all_within, pairwise_disjoint};
use crate::packer::{
    PACKER_SIDE_LIMIT, lemma_allocate_keeps_disjoint, packer_allocate, packer_deallocate,
    packer_fresh, packer_grow, packer_live, packer_new, packer_side,
};
use crate::pixels::PixelFormat;
use crate::raster::{RasterImage, rasterize};
use cosmic_text::{CacheKey, FontSystem, SwashCache};
use etagere::BucketedAtlasAllocator;
use std::collections::HashSet;
use vstd::prelude::*;

verus! {

broadcast use vstd::std_specs::hash::group_hash_axioms;

/// An RGBA colour, 8 bits per channel.
#[derive(Clone, Copy, Debug, PartialEq, Eq, Structural)]
pub struct Color {
    pub r: u8,
    pub g: u8,
    pub b: u8,
    pub a: u8,
}

/// Side of the surface when an atlas is created.
pub const INITIAL_SIDE: usize = 256;

/// What rasterising a glyph reported: its placement and whether its bitmap is
/// a single-channel coverage mask.
#[derive(Clone, Copy, Debug, PartialEq, Eq, Structural)]
pub struct GlyphRaster {
    pub placement: GlyphPlacement,
    pub colorable: bool,
}

/// A packed glyph as it is drawn: its rectangle within a surface of side
/// `atlas_side`, its placement, its tint rule.
#[derive(Clone, Copy, Debug, PartialEq, Eq, Structural)]
pub struct GlyphImage {
    pub rect: Rect,
    pub atlas_side: usize,
    pub default_color: Color,
    pub colorable: bool,
    pub top: i32,
    pub left: i32,
    pub width: u32,
    pub height: u32,
}

pub open spec fn image_of(st: GlyphState, side: usize, default_color: Color) -> GlyphImage {
    GlyphImage {
        rect: st.rect,
        atlas_side: side,
        default_color,
        colorable: st.colorable,
        top: st.placement.top,
        left: st.placement.left,
        width: st.placement.width,
        height: st.placement.height,
    }
}

impl GlyphImage {
    fn new(st: GlyphState, side: usize, default_color: Color) -> (r: Self)
        ensures
            r == image_of(st, side, default_color),
    {
        GlyphImage {
            rect: st.rect,
            atlas_side: side,
            default_color,
            colorable: st.colorable,
            top: st.placement.top,
            left: st.placement.left,
            width: st.placement.width,
            height: st.placement.height,
        }
    }

    /// The colour to draw with: a coverage mask takes the override, else the
    /// default colour; a colour bitmap is drawn untinted.
    pub fn tint(&self, color_override: Option<Color>) -> (r: Color)
        ensures
            r == (if self.colorable {
                match color_override {
                    Some(c) => c,
                    None => self.default_color,
                }
            } else {
                (Color { r: 255, g: 255, b: 255, a: 255 })
            }),
    {
        if self.colorable {
            match color_override {
                Some(c) => c,
                None => self.default_color,
            }
        } else {
            Color { r: 255, g: 255, b: 255, a: 255 }
        }
    }

    /// Top-left corner on screen, in physical pixels, of the glyph drawn at
    /// pen offset `(glyph_x, glyph_y)` on a line whose baseline is at `line_y`.
    pub fn screen_position(&self, glyph_x: i32, glyph_y: i32, line_y: i32) -> (r: (i64, i64))
        ensures
            r.0 == glyph_x + self.left,
            r.1 == line_y + glyph_y - self.top,
    {
        (glyph_x as i64 + self.left as i64, line_y as i64 + glyph_y as i64 - self.top as i64)
    }
}

/// What the atlas knows of a glyph before any rasterising.
#[derive(Clone, Copy, Debug, PartialEq, Eq, Structural)]
pub enum Lookup {
    Cached(GlyphImage),
    Empty,
    Missing,
}

/// The result of packing a freshly rasterised glyph.
#[derive(Clone, Copy, Debug, PartialEq, Eq, Structural)]
pub enum AllocOutcome {
    /// Nothing to draw: the glyph is empty, or rasterising failed.
    Skipped,
    Placed(GlyphImage),
    /// The glyph does not fit, even at the largest surface side.
    NoRoom,
}

/// A packed cache entry whose allocation is live in the packer with the same
/// rectangle, wide enough and tall enough for its placement.
pub open spec fn entry_ok(e: (u64, Entry), live: Map<u32, Rect>) -> bool {
    match e.1 {
        Some(st) => {
            &&& live.contains_key(st.alloc_id)
            &&& live[st.alloc_id] == st.rect
            &&& st.rect.width() == st.placement.width
            &&& st.rect.height() >= st.placement.height
        },
        None => true,
    }
}

/// Entries under different keys hold different allocations.
pub open spec fn ids_distinct(s: Seq<(u64, Entry)>) -> bool {
    forall|e: (u64, Entry), f: (u64, Entry)|
        #![trigger s.contains(e), s.contains(f)]
        s.contains(e) && s.contains(f) && e.0 != f.0 && e.1.is_some() && f.1.is_some()
            ==> e.1.unwrap().alloc_id != f.1.unwrap().alloc_id
}

pub open spec fn entries_ok(s: Seq<(u64, Entry)>, live: Map<u32, Rect>) -> bool {
    &&& keys_unique(s)
    &&& ids_distinct(s)
    &&& forall|e: (u64, Entry)| #[trigger] s.contains(e) ==> entry_ok(e, live)
}

/// The cache entries that were evicted to reach `after` from `before` are its
/// first entries, and none of them is in `in_use`.
pub open spec fn evicted_unused(
    before: Seq<(u64, Entry)>,
    after: Seq<(u64, Entry)>,
    in_use: Set<u64>,
) -> bool {
    exists|n: int|
        0 <= n <= before.len() && after == before.subrange(n, before.len() as int) && forall|
            i: int,
        |
            0 <= i < n ==> !in_use.contains(#[trigger] before[i].0)
}

/// A dynamic atlas: glyph bitmaps packed into one square surface that grows
/// by doubling up to a maximum side, with an LRU cache of packed glyphs and
/// the set of glyphs in use in the current frame.
pub struct TextureAtlas {
    packer: BucketedAtlasAllocator,
    cache: GlyphCache,
    in_use: HashSet<u64>,
    atlas_side: usize,
    max_texture_side: usize,
    default_color: Color,
}

impl TextureAtlas {
    /// Cache entries, least recently used first.
    pub closed spec fn entries(&self) -> Seq<(u64, Entry)> {
        cache_entries(self.cache)
    }

    pub closed spec fn in_use_set(&self) -> Set<u64> {
        self.in_use@
    }

    /// Live allocations of the packer, by allocation id.
    pub closed spec fn live(&self) -> Map<u32, Rect> {
        packer_live(self.packer)
    }

    /// Whether the packer has never handed out an allocation.
    pub closed spec fn fresh(&self) -> bool {
        packer_fresh(self.packer)
    }

    pub closed spec fn side(&self) -> usize {
        self.atlas_side
    }

    pub closed spec fn max_side(&self) -> usize {
        self.max_texture_side
    }

    pub closed spec fn default_color_spec(&self) -> Color {
        self.default_color
    }

    pub closed spec fn wf(&self) -> bool {
        &&& packer_side(self.packer) == self.atlas_side
        &&& self.atlas_side <= PACKER_SIDE_LIMIT
        &&& self.max_texture_side <= PACKER_SIDE_LIMIT
        &&& pairwise_disjoint(self.live())
        &&& all_within(self.live(), self.atlas_side as int)
        &&& entries_ok(self.entries(), self.live())
    }

    /// An atlas of side `INITIAL_SIDE` (or the maximum, if smaller), empty, that
    /// never grows beyond `max_texture_side` nor beyond what the packer takes.
    pub fn new(max_texture_side: usize, default_color: Color) -> (r: Self)
        ensures
            r.wf(),
            r.entries().len() == 0,
            r.in_use_set().is_empty(),
            r.live().dom() == Set::<u32>::empty(),
            r.fresh(),
            r.max_side() == (if max_texture_side < PACKER_SIDE_LIMIT {
                max_texture_side
            } else {
                PACKER_SIDE_LIMIT
            }),
            r.side() == (if r.max_side() < INITIAL_SIDE {
                r.max_side()
            } else {
                INITIAL_SIDE
            }),
            r.default_color_spec() == default_color,
    {
        let max_side = if max_texture_side < PACKER_SIDE_LIMIT {
            max_texture_side
        } else {
            PACKER_SIDE_LIMIT
        };
        let side = if max_side < INITIAL_SIDE {
            max_side
        } else {
            INITIAL_SIDE
        };
        let packer = packer_new(side as i32);
        let cache = cache_new();
        let r = TextureAtlas {
            packer,
            cache,
            in_use: HashSet::new(),
            atlas_side: side,
            max_texture_side: max_side,
            default_color,
        };
        r
    }

    /// Packs a `width` x `height` rectangle, evicting least recently used
    /// entries that are not in use this frame until it fits. Gives up when the
    /// oldest entry is in use or the cache is empty.
    fn alloc_packer(&mut self, width: u32, height: u32) -> (r: Option<(u32, Rect)>)
        requires
            old(self).wf(),
            0 < width <= PACKER_SIDE_LIMIT,
            0 < height <= PACKER_SIDE_LIMIT,
        ensures
            final(self).wf(),
            final(self).side() == old(self).side(),
            final(self).max_side() == old(self).max_side(),
            final(self).in_use_set() == old(self).in_use_set(),
            final(self).default_color_spec() == old(self).default_color_spec(),
            evicted_unused(old(self).entries(), final(self).entries(), old(self).in_use_set()),
            old(self).fresh() && width <= old(self).side() && height <= old(self).side() ==> r.is_some(),
            match r {
                Some((id, rect)) => {
                    &&& final(self).live().contains_key(id)
                    &&& final(self).live()[id] == rect
                    &&& rect.width() == width
                    &&& rect.height() >= height
                    &&& forall|e: (u64, Entry)| #[trigger]
                        final(self).entries().contains(e) && e.1.is_some() ==> e.1.unwrap().alloc_id
                            != id
                },
                None => final(self).entries().len() == 0 || final(self).in_use_set().contains(
                    final(self).entries()[0].0,
                ),
            },
    {
        let ghost start = self.entries();
        let ghost mut n: int = 0;
        loop
            invariant
                self.wf(),
                self.side() == old(self).side(),
                self.max_side() == old(self).max_side(),
                self.in_use_set() == old(self).in_use_set(),
                self.default_color_spec() == old(self).default_color_spec(),
                start == old(self).entries(),
                0 <= n <= start.len(),
                self.entries() == start.subrange(n, start.len() as int),
                forall|i: int| 0 <= i < n ==> !self.in_use_set().contains(#[trigger] start[i].0),
                old(self).fresh() && width <= old(self).side() && height <= old(self).side()
                    ==> self.fresh(),
                0 < width <= PACKER_SIDE_LIMIT,
                0 < height <= PACKER_SIDE_LIMIT,
            decreases self.entries().len(),
        {
            let ghost before = self.live();
            let allocated = packer_allocate(&mut self.packer, width as i32, height as i32);
            if let Some((id, rect)) = allocated {
                proof {
                    lemma_allocate_keeps_disjoint(before, self.atlas_side as int, id, rect);
                    lemma_entries_ok_insert(self.entries(), before, id, rect);
                }
                return Some((id, rect));
            }
            match cache_peek_lru(&self.cache) {
                None => {
                    return None;
                },
                Some((key, _)) => {
                    if self.in_use.contains(&key) {
                        return None;
                    }
                },
            }
            let ghost s = self.entries();
            proof {
                lemma_entries_ok_drop_first(s, self.live());
                assert(start[n] == s[0]);
            }
            let popped = cache_pop_lru(&mut self.cache);
            if let Some((_, Some(st))) = popped {
                packer_deallocate(&mut self.packer, st.alloc_id);
                proof {
                    lemma_remove_keeps_disjoint(before, self.atlas_side as int, st.alloc_id);
                }
            }
            proof {
                assert(self.entries() =~= start.subrange(n + 1, start.len() as int));
                n = n + 1;
            }
        }
    }

    /// Grows the surface: its side doubles, but never beyond the maximum. Every
    /// cache entry and every live allocation keeps its rectangle.
    pub fn grow(&mut self)
        requires
            old(self).wf(),
            old(self).side() < old(self).max_side(),
        ensures
            final(self).wf(),
            final(self).side() == grown_side(old(self).side(), old(self).max_side()),
            old(self).side() < final(self).side() <= final(self).max_side(),
            final(self).entries() == old(self).entries(),
            final(self).live() == old(self).live(),
            final(self).fresh() == old(self).fresh(),
            final(self).in_use_set() == old(self).in_use_set(),
            final(self).max_side() == old(self).max_side(),
            final(self).default_color_spec() == old(self).default_color_spec(),
    {
        let doubled = if self.atlas_side == 0 {
            1
        } else {
            self.atlas_side * 2
        };
        let new_side = if doubled < self.max_texture_side {
            doubled
        } else {
            self.max_texture_side
        };
        packer_grow(&mut self.packer, new_side as i32);
        self.atlas_side = new_side;
        proof {
            let live = self.live();
            assert forall|a: u32| #[trigger] live.contains_key(a) implies live[a].within(
                new_side as int,
            ) by {
                assert(live[a].within(old(self).atlas_side as int));
            }
        }
    }

    /// Stores a packed glyph as the most recently used entry and marks it in use.
    fn put(&mut self, key: u64, value: Entry)
        requires
            old(self).wf(),
            entry_ok((key, value), old(self).live()),
            value.is_some() ==> forall|e: (u64, Entry)| #[trigger]
                old(self).entries().contains(e) && e.0 != key && e.1.is_some()
                    ==> e.1.unwrap().alloc_id != value.unwrap().alloc_id,
        ensures
            final(self).wf(),
            final(self).entries() == after_put(old(self).entries(), key, value),
            final(self).in_use_set() == old(self).in_use_set().insert(key),
            final(self).side() == old(self).side(),
            final(self).max_side() == old(self).max_side(),
            final(self).fresh() == old(self).fresh(),
            final(self).live() == old(self).live(),
            final(self).default_color_spec() == old(self).default_color_spec(),
    {
        proof {
            lemma_put_ok(self.entries(), self.live(), key, value);
        }
        cache_put(&mut self.cache, key, value);
        self.in_use.insert(key);
    }

    /// Marks a cached glyph as the most recently used entry and as in use.
    fn promote(&mut self, key: u64)
        requires
            old(self).wf(),
        ensures
            final(self).wf(),
            final(self).entries() == after_promote(old(self).entries(), key),
            final(self).in_use_set() == old(self).in_use_set().insert(key),
            final(self).side() == old(self).side(),
            final(self).max_side() == old(self).max_side(),
            final(self).fresh() == old(self).fresh(),
            final(self).live() == old(self).live(),
            final(self).default_color_spec() == old(self).default_color_spec(),
    {
        proof {
            let s = self.entries();
            lemma_lookup(s, key);
            if lookup(s, key).is_some() {
                let v = lookup(s, key).unwrap();
                assert(s.contains((key, v)));
                lemma_put_ok(s, self.live(), key, v);
            }
        }
        cache_promote(&mut self.cache, key);
        self.in_use.insert(key);
    }

    /// Looks a glyph up without rasterising it. A packed glyph becomes the most
    /// recently used entry and is marked in use; a glyph known to be empty and
    /// a glyph never seen leave the atlas as it was.
    pub fn cached_glyph(&mut self, key: u64) -> (r: Lookup)
        requires
            old(self).wf(),
        ensures
            final(self).wf(),
            final(self).side() == old(self).side(),
            final(self).max_side() == old(self).max_side(),
            final(self).fresh() == old(self).fresh(),
            final(self).live() == old(self).live(),
            final(self).default_color_spec() == old(self).default_color_spec(),
            match lookup(old(self).entries(), key) {
                None => {
                    &&& r == Lookup::Missing
                    &&& final(self).entries() == old(self).entries()
                    &&& final(self).in_use_set() == old(self).in_use_set()
                },
                Some(None) => {
                    &&& r == Lookup::Empty
                    &&& final(self).entries() == old(self).entries()
                    &&& final(self).in_use_set() == old(self).in_use_set()
                },
                Some(Some(st)) => {
                    &&& r == Lookup::Cached(image_of(st, old(self).side(), old(self).default_color_spec()))
                    &&& final(self).entries() == after_promote(old(self).entries(), key)
                    &&& final(self).in_use_set() == old(self).in_use_set().insert(key)
                },
            },
    {
        match cache_peek(&self.cache, key) {
            None => Lookup::Missing,
            Some(None) => Lookup::Empty,
            Some(Some(st)) => {
                self.promote(key);
                Lookup::Cached(GlyphImage::new(st, self.atlas_side, self.default_color))
            },
        }
    }

    /// Records a glyph that was not cached, given what rasterising it gave.
    /// A failed rasterisation is not recorded; an empty glyph is cached as
    /// empty; any other glyph is packed, evicting least recently used glyphs
    /// that are not in use this frame, and growing the surface when the oldest
    /// entry is in use or nothing is left to evict.
    pub fn alloc_glyph(&mut self, key: u64, raster: Option<GlyphRaster>) -> (r: AllocOutcome)
        requires
            old(self).wf(),
            lookup(old(self).entries(), key).is_none(),
        ensures
            final(self).wf(),
            alloc_effect(*old(self), *final(self), key, raster, r),
    {
        let ghost mut steps: nat = 0;
        proof {
            assert(grow_steps(old(self).side(), old(self).max_side(), 0) == old(self).side());
        }
        let g = match raster {
            None => {
                return AllocOutcome::Skipped;
            },
            Some(g) => g,
        };
        if g.placement.width == 0 || g.placement.height == 0 {
            proof {
                lemma_put_ok(self.entries(), self.live(), key, None);
            }
            cache_put(&mut self.cache, key, None);
            return AllocOutcome::Skipped;
        }
        let width = g.placement.width;
        let height = g.placement.height;
        proof {
            lemma_evicted_none(self.entries(), self.in_use_set());
        }
        if width as usize > PACKER_SIDE_LIMIT || height as usize > PACKER_SIDE_LIMIT {
            return AllocOutcome::NoRoom;
        }
        let ghost start = self.entries();
        loop
            invariant
                self.wf(),
                self.max_side() == old(self).max_side(),
                self.default_color_spec() == old(self).default_color_spec(),
                self.in_use_set() == old(self).in_use_set(),
                old(self).side() <= self.side(),
                self.side() == old(self).side() || self.side() <= self.max_side(),
                start == old(self).entries(),
                self.side() == grow_steps(old(self).side(), old(self).max_side(), steps),
                evicted_unused(start, self.entries(), self.in_use_set()),
                raster == Some(g),
                0 < width <= PACKER_SIDE_LIMIT,
                0 < height <= PACKER_SIDE_LIMIT,
                width == g.placement.width,
                height == g.placement.height,
                old(self).fresh() && width <= old(self).side() && height <= old(self).side()
                    ==> self.fresh() && width <= self.side() && height <= self.side(),
            decreases self.max_side() - self.side(),
        {
            let ghost mid = self.entries();
            match self.alloc_packer(width, height) {
                Some((id, rect)) => {
                    proof {
                        lemma_evicted_trans(start, mid, self.entries(), self.in_use_set());
                    }
                    let ghost rest = self.entries();
                    let st = GlyphState {
                        alloc_id: id,
                        rect,
                        placement: g.placement,
                        colorable: g.colorable,
                    };
                    self.put(key, Some(st));
                    let img = GlyphImage::new(st, self.atlas_side, self.default_color);
                    assert(self.entries() == after_put(rest, key, Some(st)));
                    return AllocOutcome::Placed(img);
                },
                None => {
                    proof {
                        lemma_evicted_trans(start, mid, self.entries(), self.in_use_set());
                    }
                    if self.atlas_side < self.max_texture_side {
                        self.grow();
                        proof {
                            steps = steps + 1;
                            assert(self.side() == grow_steps(old(self).side(), old(self).max_side(), steps));
                        }
                    } else {
                        return AllocOutcome::NoRoom;
                    }
                },
            }
        }
    }

    /// The drawable form of a glyph. A cached glyph is not rasterised again; a
    /// glyph never seen is rasterised once and recorded as `alloc_glyph`
    /// records it. Also gives the image that was rasterised, if any: its
    /// pixels belong in the glyph's rectangle.
    pub fn alloc_rasterized(
        &mut self,
        key: u64,
        cache_key: CacheKey,
        font_system: &mut FontSystem,
        swash_cache: &mut SwashCache,
    ) -> (r: (Option<GlyphImage>, Option<RasterImage>))
        requires
            old(self).wf(),
        ensures
            final(self).wf(),
            match lookup(old(self).entries(), key) {
                None => exists|o: AllocOutcome|
                    #[trigger] alloc_effect(*old(self), *final(self), key, raster_of(r.1), o)
                        && r.0 == placed_image(o),
                Some(None) => {
                    &&& r.0.is_none()
                    &&& r.1.is_none()
                    &&& final(self).entries() == old(self).entries()
                    &&& final(self).live() == old(self).live()
                    &&& final(self).fresh() == old(self).fresh()
                    &&& final(self).default_color_spec() == old(self).default_color_spec()
                    &&& final(self).in_use_set() == old(self).in_use_set()
                    &&& final(self).side() == old(self).side()
                    &&& final(self).max_side() == old(self).max_side()
                },
                Some(Some(st)) => {
                    &&& r.0 == Some(image_of(st, old(self).side(), old(self).default_color_spec()))
                    &&& r.1.is_none()
                    &&& final(self).entries() == after_promote(old(self).entries(), key)
                    &&& final(self).live() == old(self).live()
                    &&& final(self).fresh() == old(self).fresh()
                    &&& final(self).default_color_spec() == old(self).default_color_spec()
                    &&& final(self).in_use_set() == old(self).in_use_set().insert(key)
                    &&& final(self).side() == old(self).side()
                    &&& final(self).max_side() == old(self).max_side()
                },
            },
    {
        match self.cached_glyph(key) {
            Lookup::Cached(img) => (Some(img), None),
            Lookup::Empty => (None, None),
            Lookup::Missing => {
                let image = rasterize(swash_cache, font_system, cache_key);
                let info = raster_info(&image);
                let ghost mid = *self;
                let outcome = self.alloc_glyph(key, info);
                assert(alloc_effect(*old(self), *self, key, raster_of(image), outcome)) by {
                    assert(alloc_effect(mid, *self, key, info, outcome));
                }
                let drawn = match outcome {
                    AllocOutcome::Placed(img) => Some(img),
                    _ => None,
                };
                assert(drawn == placed_image(outcome));
                (drawn, image)
            },
        }
    }

    /// Every packed glyph, least recently used first, with its state and its
    /// bitmap rasterised again: what a surface that replaces the current one
    /// must hold. `keys[k]` is the glyph identity recorded under key `k`; a key
    /// with none is given no bitmap.
    pub fn packed_rasters(
        &self,
        keys: &Vec<CacheKey>,
        font_system: &mut FontSystem,
        swash_cache: &mut SwashCache,
    ) -> (r: Vec<(GlyphState, Option<RasterImage>)>)
        ensures
            r@.len() == packed(self.entries()).len(),
            forall|i: int|
                0 <= i < r@.len() ==> (#[trigger] r@[i]).0 == packed(self.entries())[i].1,
            forall|i: int|
                0 <= i < r@.len() && packed(self.entries())[i].0 >= keys@.len() ==> (
                #[trigger] r@[i]).1.is_none(),
    {
        let glyphs = self.packed_glyphs();
        let mut out: Vec<(GlyphState, Option<RasterImage>)> = Vec::new();
        let mut i: usize = 0;
        while i < glyphs.len()
            invariant
                glyphs@ == packed(self.entries()),
                0 <= i <= glyphs@.len(),
                out@.len() == i,
                forall|j: int| 0 <= j < i ==> (#[trigger] out@[j]).0 == glyphs@[j].1,
                forall|j: int|
                    0 <= j < i && glyphs@[j].0 >= keys@.len() ==> (#[trigger] out@[j]).1.is_none(),
            decreases glyphs@.len() - i,
        {
            let (key, st) = glyphs[i];
            let image = if key < keys.len() as u64 {
                rasterize(swash_cache, font_system, keys[key as usize])
            } else {
                None
            };
            out.push((st, image));
            i = i + 1;
        }
        out
    }

    /// Forgets which glyphs are in use: call once at the start of each frame.
    pub fn trim(&mut self)
        requires
            old(self).wf(),
        ensures
            final(self).wf(),
            final(self).in_use_set().is_empty(),
            final(self).entries() == old(self).entries(),
            final(self).fresh() == old(self).fresh(),
            final(self).live() == old(self).live(),
            final(self).side() == old(self).side(),
            final(self).max_side() == old(self).max_side(),
            final(self).default_color_spec() == old(self).default_color_spec(),
    {
        self.in_use.clear();
    }

    /// Takes a newly reported maximum side, bounded by what the packer takes.
    pub fn update_max_texture_side(&mut self, max_texture_side: usize)
        requires
            old(self).wf(),
        ensures
            final(self).wf(),
            final(self).max_side() == (if max_texture_side < PACKER_SIDE_LIMIT {
                max_texture_side
            } else {
                PACKER_SIDE_LIMIT
            }),
            final(self).entries() == old(self).entries(),
            final(self).in_use_set() == old(self).in_use_set(),
            final(self).fresh() == old(self).fresh(),
            final(self).live() == old(self).live(),
            final(self).side() == old(self).side(),
            final(self).default_color_spec() == old(self).default_color_spec(),
    {
        self.max_texture_side = if max_texture_side < PACKER_SIDE_LIMIT {
            max_texture_side
        } else {
            PACKER_SIDE_LIMIT
        };
    }

    /// The side of the surface, in pixels.
    pub fn atlas_texture_size(&self) -> (r: usize)
        ensures
            r == self.side(),
    {
        self.atlas_side
    }

    pub fn max_texture_side(&self) -> (r: usize)
        ensures
            r == self.max_side(),
    {
        self.max_texture_side
    }

    pub fn default_color(&self) -> (r: Color)
        ensures
            r == self.default_color_spec(),
    {
        self.default_color
    }

    /// Whether the glyph was marked in use since the last `trim`.
    pub fn is_in_use(&self, key: u64) -> (r: bool)
        ensures
            r == self.in_use_set().contains(key),
    {
        self.in_use.contains(&key)
    }

    /// The cache entry of a glyph, leaving the order unchanged.
    pub fn peek(&self, key: u64) -> (r: Option<Entry>)
        ensures
            r == lookup(self.entries(), key),
    {
        cache_peek(&self.cache, key)
    }

    /// The key of the least recently used entry.
    pub fn peek_oldest(&self) -> (r: Option<u64>)
        ensures
            r == (if self.entries().len() == 0 {
                None
            } else {
                Some(self.entries()[0].0)
            }),
    {
        match cache_peek_lru(&self.cache) {
            Some((k, _)) => Some(k),
            None => None,
        }
    }

    /// Every packed glyph with its state, least recently used first: what must
    /// be drawn again into a surface that replaces the current one.
    pub fn packed_glyphs(&self) -> (r: Vec<(u64, GlyphState)>)
        ensures
            r@ == packed(self.entries()),
    {
        let all = cache_to_vec(&self.cache);
        let mut out: Vec<(u64, GlyphState)> = Vec::new();
        let mut i: usize = 0;
        while i < all.len()
            invariant
                all@ == self.entries(),
                0 <= i <= all@.len(),
                out@ == packed(all@.take(i as int)),
            decreases all@.len() - i,
        {
            proof {
                assert(all@.take(i as int + 1).drop_last() =~= all@.take(i as int));
            }
            let (k, e) = all[i];
            if let Some(st) = e {
                out.push((k, st));
            }
            i = i + 1;
        }
        proof {
            assert(all@.take(all@.len() as int) =~= all@);
        }
        out
    }
}

/// What recording a glyph that was not cached does, from `old` to `new`,
/// given what rasterising it gave and the outcome `r`.
pub open spec fn alloc_effect(
    old: TextureAtlas,
    new: TextureAtlas,
    key: u64,
    raster: Option<GlyphRaster>,
    r: AllocOutcome,
) -> bool {
    &&& new.max_side() == old.max_side()
    &&& new.default_color_spec() == old.default_color_spec()
    &&& old.side() <= new.side()
    &&& new.side() == old.side() || new.side() <= new.max_side()
    &&& exists|n: nat| new.side() == #[trigger] grow_steps(old.side(), old.max_side(), n)
    &&& match raster {
        None => {
            &&& r == AllocOutcome::Skipped
            &&& new.entries() == old.entries()
            &&& new.in_use_set() == old.in_use_set()
            &&& new.side() == old.side()
            &&& new.live() == old.live()
            &&& new.fresh() == old.fresh()
        },
        Some(g) => if g.placement.width == 0 || g.placement.height == 0 {
            &&& r == AllocOutcome::Skipped
            &&& new.entries() == after_put(old.entries(), key, None)
            &&& new.in_use_set() == old.in_use_set()
            &&& new.side() == old.side()
            &&& new.live() == old.live()
            &&& new.fresh() == old.fresh()
        } else {
            &&& old.fresh() && g.placement.width <= old.side() && g.placement.height <= old.side()
                ==> r is Placed
            &&& match r {
                AllocOutcome::Placed(img) => exists|rest: Seq<(u64, Entry)>, st: GlyphState|
                    {
                        &&& evicted_unused(old.entries(), rest, old.in_use_set())
                        &&& #[trigger] new.entries() == after_put(rest, key, Some(st))
                        &&& st.placement == g.placement
                        &&& st.colorable == g.colorable
                        &&& st.rect.width() == g.placement.width
                        &&& st.rect.height() >= g.placement.height
                        &&& st.rect.within(new.side() as int)
                        &&& img == image_of(st, new.side(), old.default_color_spec())
                        &&& new.in_use_set() == old.in_use_set().insert(key)
                    },
                AllocOutcome::NoRoom => {
                    &&& evicted_unused(old.entries(), new.entries(), old.in_use_set())
                    &&& new.in_use_set() == old.in_use_set()
                    &&& g.placement.width > PACKER_SIDE_LIMIT || g.placement.height
                        > PACKER_SIDE_LIMIT || (new.side() >= new.max_side() && (new.entries().len()
                        == 0 || new.in_use_set().contains(new.entries()[0].0)))
                },
                AllocOutcome::Skipped => false,
            }
        },
    }
}

/// The glyph that a rasterised image describes, for packing.
pub open spec fn raster_of(image: Option<RasterImage>) -> Option<GlyphRaster> {
    match image {
        Some(i) => Some(GlyphRaster { placement: i.placement, colorable: i.format == PixelFormat::Mask }),
        None => None,
    }
}

/// The glyph that a rasterised image describes, for packing.
pub fn raster_info(image: &Option<RasterImage>) -> (r: Option<GlyphRaster>)
    ensures
        r == raster_of(*image),
{
    match image {
        Some(i) => Some(GlyphRaster { placement: i.placement, colorable: i.format.is_colorable() }),
        None => None,
    }
}

/// The drawable glyph that an outcome carries.
pub open spec fn placed_image(o: AllocOutcome) -> Option<GlyphImage> {
    match o {
        AllocOutcome::Placed(img) => Some(img),
        _ => None,
    }
}

/// The side after `n` growths from `side` under a maximum `max`.
pub open spec fn grow_steps(side: usize, max: usize, n: nat) -> usize
    decreases n,
{
    if n == 0 {
        side
    } else {
        grown_side(grow_steps(side, max, (n - 1) as nat), max)
    }
}

/// The side that growing a surface of side `side` gives under a maximum `max`.
pub open spec fn grown_side(side: usize, max: usize) -> usize {
    let doubled = if side == 0 {
        1
    } else {
        2 * side
    };
    if doubled < max {
        doubled as usize
    } else {
        max
    }
}

/// The packed glyphs among the entries `s`, in order.
pub open spec fn packed(s: Seq<(u64, Entry)>) -> Seq<(u64, GlyphState)>
    decreases s.len(),
{
    if s.len() == 0 {
        Seq::empty()
    } else {
        match s.last().1 {
            Some(st) => packed(s.drop_last()).push((s.last().0, st)),
            None => packed(s.drop_last()),
        }
    }
}

proof fn lemma_put_ok(s: Seq<(u64, Entry)>, live: Map<u32, Rect>, key: u64, value: Entry)
    requires
        entries_ok(s, live),
        entry_ok((key, value), live),
        value.is_some() ==> forall|e: (u64, Entry)| #[trigger]
            s.contains(e) && e.0 != key && e.1.is_some() ==> e.1.unwrap().alloc_id
                != value.unwrap().alloc_id,
    ensures
        entries_ok(after_put(s, key, value), live),
{
    lemma_after_put(s, key, value);
    let a = after_put(s, key, value);
    assert forall|e: (u64, Entry)| #[trigger] a.contains(e) implies entry_ok(e, live) by {}
    assert forall|e: (u64, Entry), f: (u64, Entry)|
        #![trigger a.contains(e), a.contains(f)]
        a.contains(e) && a.contains(f) && e.0 != f.0 && e.1.is_some() && f.1.is_some()
            implies e.1.unwrap().alloc_id != f.1.unwrap().alloc_id by {
        if e == (key, value) {
            assert(s.contains(f));
        } else if f == (key, value) {
            assert(s.contains(e));
        } else {
            assert(s.contains(e) && s.contains(f));
        }
    }
}

proof fn lemma_evicted_none(s: Seq<(u64, Entry)>, in_use: Set<u64>)
    ensures
        evicted_unused(s, s, in_use),
{
    assert(s == s.subrange(0, s.len() as int));
}

proof fn lemma_evicted_trans(
    a: Seq<(u64, Entry)>,
    b: Seq<(u64, Entry)>,
    c: Seq<(u64, Entry)>,
    in_use: Set<u64>,
)
    requires
        evicted_unused(a, b, in_use),
        evicted_unused(b, c, in_use),
    ensures
        evicted_unused(a, c, in_use),
{
    let n1 = choose|n: int|
        0 <= n <= a.len() && b == a.subrange(n, a.len() as int) && forall|i: int|
            0 <= i < n ==> !in_use.contains(#[trigger] a[i].0);
    let n2 = choose|n: int|
        0 <= n <= b.len() && c == b.subrange(n, b.len() as int) && forall|i: int|
            0 <= i < n ==> !in_use.contains(#[trigger] b[i].0);
    assert(c =~= a.subrange(n1 + n2, a.len() as int));
    assert forall|i: int| 0 <= i < n1 + n2 implies !in_use.contains(#[trigger] a[i].0) by {
        if i >= n1 {
            assert(a[i] == b[i - n1]);
        }
    }
}

proof fn lemma_entries_ok_insert(s: Seq<(u64, Entry)>, live: Map<u32, Rect>, id: u32, rect: Rect)
    requires
        entries_ok(s, live),
        !live.contains_key(id),
    ensures
        entries_ok(s, live.insert(id, rect)),
        forall|e: (u64, Entry)| #[trigger] s.contains(e) && e.1.is_some() ==> e.1.unwrap().alloc_id
            != id,
{
    assert forall|e: (u64, Entry)| #[trigger] s.contains(e) implies entry_ok(
        e,
        live.insert(id, rect),
    ) by {
        assert(entry_ok(e, live));
    }
    assert forall|e: (u64, Entry)| #[trigger] s.contains(e) && e.1.is_some() implies e.1.unwrap().alloc_id
        != id by {
        assert(entry_ok(e, live));
    }
}

/// Dropping the oldest entry, and releasing its allocation if it had one, keeps
/// the other entries valid.
proof fn lemma_entries_ok_drop_first(s: Seq<(u64, Entry)>, live: Map<u32, Rect>)
    requires
        entries_ok(s, live),
        s.len() > 0,
    ensures
        s[0].1.is_some() ==> live.contains_key(s[0].1.unwrap().alloc_id),
        s[0].1.is_some() ==> entries_ok(s.drop_first(), live.remove(s[0].1.unwrap().alloc_id)),
        s[0].1.is_none() ==> entries_ok(s.drop_first(), live),
{
    let t = s.drop_first();
    assert(s.contains(s[0]));
    assert forall|e: (u64, Entry)| #[trigger] t.contains(e) implies s.contains(e) && e.0 != s[0].0 by {
        let i = choose|i: int| 0 <= i < t.len() && t[i] == e;
        assert(s[i + 1] == e);
    }
    assert(keys_unique(t)) by {
        assert forall|i: int, j: int| 0 <= i < j < t.len() implies #[trigger] t[i].0
            != #[trigger] t[j].0 by {
            assert(t[i] == s[i + 1] && t[j] == s[j + 1]);
        }
    }
    if s[0].1.is_some() {
        let l2 = live.remove(s[0].1.unwrap().alloc_id);
        assert forall|e: (u64, Entry)| #[trigger] t.contains(e) implies entry_ok(e, l2) by {
            assert(s.contains(e));
            assert(entry_ok(e, live));
        }
    }
}

proof fn lemma_remove_keeps_disjoint(live: Map<u32, Rect>, side: int, id: u32)
    requires
        pairwise_disjoint(live),
        all_within(live, side),
    ensures
        pairwise_disjoint(live.remove(id)),
        all_within(live.remove(id), side),
{
    let l2 = live.remove(id);
    assert forall|a: u32, b: u32|
        #![trigger l2[a], l2[b]]
        l2.contains_key(a) && l2.contains_key(b) && a != b implies !l2[a].overlaps(l2[b]) by {
        assert(!live[a].overlaps(live[b]));
    }
}

/// Two packed glyphs under different keys never share a pixel, and each lies
/// inside the surface: this holds in every state the atlas can reach.
pub proof fn lemma_packed_glyphs_disjoint(atlas: &TextureAtlas, e: (u64, Entry), f: (u64, Entry))
    requires
        atlas.wf(),
        atlas.entries().contains(e),
        atlas.entries().contains(f),
        e.0 != f.0,
        e.1.is_some(),
        f.1.is_some(),
    ensures
        !e.1.unwrap().rect.overlaps(f.1.unwrap().rect),
        e.1.unwrap().rect.within(atlas.side() as int),
{
    let live = atlas.live();
    assert(entry_ok(e, live) && entry_ok(f, live));
    let a = e.1.unwrap().alloc_id;
    let b = f.1.unwrap().alloc_id;
    assert(a != b);
    assert(!live[a].overlaps(live[b]));
}

/// An entry whose key is in use survives every eviction made while it is.
pub proof fn lemma_in_use_survives(
    before: Seq<(u64, Entry)>,
    after: Seq<(u64, Entry)>,
    in_use: Set<u64>,
    e: (u64, Entry),
)
    requires
        evicted_unused(before, after, in_use),
        before.contains(e),
        in_use.contains(e.0),
    ensures
        after.contains(e),
{
    let n = choose|n: int|
        0 <= n <= before.len() && after == before.subrange(n, before.len() as int) && forall|
            i: int,
        |
            0 <= i < n ==> !in_use.contains(#[trigger] before[i].0);
    let i = choose|i: int| 0 <= i < before.len() && before[i] == e;
    assert(i >= n);
    assert(after[i - n] == e);
}

/// A glyph stored as empty is found empty afterwards, so it is never
/// rasterised again while it stays cached.
pub proof fn lemma_empty_glyph_found_empty(s: Seq<(u64, Entry)>, key: u64)
    ensures
        lookup(after_put(s, key, None), key) == Some(None::<GlyphState>),
{
    lemma_after_put(s, key, None);
}

/// In every state the atlas can reach, no two cache entries share a key,
/// every packed glyph lies inside the surface, and its rectangle has the
/// glyph's width and at least its height.
pub proof fn lemma_atlas_entries(atlas: &TextureAtlas, e: (u64, Entry))
    requires
        atlas.wf(),
    ensures
        keys_unique(atlas.entries()),
        atlas.entries().contains(e) && e.1.is_some() ==> {
            &&& e.1.unwrap().rect.within(atlas.side() as int)
            &&& e.1.unwrap().rect.width() == e.1.unwrap().placement.width
            &&& e.1.unwrap().rect.height() >= e.1.unwrap().placement.height
        },
{
    if atlas.entries().contains(e) && e.1.is_some() {
        assert(entry_ok(e, atlas.live()));
    }
}

/// A key in use keeps its entry through every eviction made while it is in
/// use, and through storing another key afterwards.
pub proof fn lemma_in_use_entry_kept(
    before: Seq<(u64, Entry)>,
    rest: Seq<(u64, Entry)>,
    in_use: Set<u64>,
    k: u64,
    key: u64,
    v: Entry,
)
    requires
        keys_unique(before),
        evicted_unused(before, rest, in_use),
        in_use.contains(k),
        lookup(before, k).is_some(),
        key != k,
    ensures
        lookup(rest, k) == lookup(before, k),
        lookup(after_put(rest, key, v), k) == lookup(before, k),
{
    lemma_lookup(before, k);
    let e = (k, lookup(before, k).unwrap());
    lemma_in_use_survives(before, rest, in_use, e);
    let n = choose|n: int|
        0 <= n <= before.len() && rest == before.subrange(n, before.len() as int) && forall|
            i: int,
        |
            0 <= i < n ==> !in_use.contains(#[trigger] before[i].0);
    assert(keys_unique(rest)) by {
        assert forall|i: int, j: int| 0 <= i < j < rest.len() implies #[trigger] rest[i].0
            != #[trigger] rest[j].0 by {
            assert(rest[i] == before[i + n] && rest[j] == before[j + n]);
        }
    }
    let i = choose|i: int| 0 <= i < rest.len() && rest[i] == e;
    lemma_lookup(rest, k);
    assert(rest[i].0 == k);
    lemma_after_put(rest, key, v);
}

} // verus!
