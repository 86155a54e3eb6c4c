# gdal_alt_core

Conversion of GeoTIFF and JPEG 2000 rasters to cloud optimized GeoTIFF, and footprints of
their valid pixels.

`src/` is the library. It decides and computes on plain values: which blocks can be copied,
which windows are read for which tiles, how tiles are cut, reduced, padded, framed and
ordered, which masks belong to which layers, how rings are traced around valid pixels. Every
function states its behaviour in `requires` and `ensures`, and Verus proves it. Properties
that span several functions are public proof functions whose names begin with `law_`.

- `cog/` options, tile grid, masks, block payloads
- `encode/` reads, tiles and overviews of an encoded conversion
- `remux`, `transcode`, `hybrid_crop`, `chunky_permute` blocks that are copied, recoded, cropped
  or permuted
- `spool` layers of compressed blocks
- `resample` reductions that work on integers
- `jp2/`, `geo` JPEG 2000 boxes, regions and georeferencing texts
- `footprint/` validity masks, rings and their texts
- `info`, `input/`, `open`, `path` what is known of a source and of a destination

What the library takes on trust are the calls into `jpeg2k`, `tiff-core` and `std` that are
marked `external_body`.

`app/` opens files, reads and compresses blocks, computes in floating point and writes the
output.
