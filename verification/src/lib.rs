//! Cloud-optimized GeoTIFF conversion logic: tiling, overview planning, layer
//! assembly, transparency masks, JPEG 2000 metadata and raster footprints.
//!
//! Every function here works on plain values. Opening and reading files and writing
//! the output belong to the application around this library.
pub mod arith;
pub mod bands;
pub mod bytes;
pub mod chunky_permute;
pub mod cog;
pub mod crop;
pub mod encode;
pub mod fields;
pub mod footprint;
pub mod geo;
pub mod hybrid_crop;
pub mod info;
pub mod input;
pub mod jp2;
pub mod open;
pub mod path;
pub mod raster;
pub mod remux;
pub mod resample;
pub mod search;
pub mod spool;
pub mod text;
pub mod tiff;
pub mod transcode;
