//! Re-encoding: from decoded windows of the source to the tiles of the output.
pub mod base_parts;
pub mod chain;
pub mod decode;
pub mod delivery;
pub mod parent;
pub mod plan;
pub mod regions;
pub mod sample_bytes;
pub mod sink;
pub mod source_tiles;
pub mod tile_cache;
pub mod tiles;
