//! JPEG 2000 rasters.
pub mod decode;
pub mod georef;
pub mod profile;
pub mod stream;
