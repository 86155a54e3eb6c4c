//! Layout and options of the cloud-optimized GeoTIFF that is written.
pub mod builder;
pub mod grid;
pub mod mask;
pub mod mask_layers;
pub mod options;
pub mod semantics;
pub mod tile_payload;
