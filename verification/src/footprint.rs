//! The outline of the valid pixels of a raster.
pub mod georef;
pub mod mask;
pub mod mask_jp2;
pub mod options;
pub mod output;
pub mod tile_samples;
pub mod trace;
