//! The core of a photo gallery: raster surfaces of packed `0xAARRGGBB` pixels
//! with their transforms and compositing, area-weighted resampling, per-image
//! cache entries that claim their decode exactly once, the gallery layout, and
//! the settings text.

pub mod buffer;
pub mod config;
pub mod gui;
pub mod library;
pub mod scale;
pub mod state;
pub mod util;
pub mod weights;
