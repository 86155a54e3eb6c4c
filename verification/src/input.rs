//! Formats and properties of the rasters that are read.
pub mod dimensions;
pub mod format;
pub mod profile;
