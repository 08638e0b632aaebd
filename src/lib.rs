//! A glyph atlas: rasterised glyph bitmaps packed into one growable square
//! surface, kept across frames in least-recently-used order, evicted under
//! space pressure, and protected from eviction while in use in the current
//! frame.
pub mod geometry;
pub mod packer;
pub mod cache;
pub mod atlas;
pub mod pixels;
pub mod raster;
