//! Decoding all layers of a tiled file and compressing them anew.
use crate::cog::builder::{tile_encoding, tile_encoding_from_opts, TileEncoding};
use crate::cog::options::CogOutputOptions;
use crate::hybrid_crop::{block_layout, block_samples, crop_tile_size, is_planar_output};
use crate::input::profile::{RasterProfile, SourceInfo};
use crate::remux::{layer_ifd, layer_of};
use vstd::prelude::*;

verus! {

/// A layer whose tiles are decoded and compressed anew.
#[derive(Debug, Clone, Copy, PartialEq, Eq, Structural)]
pub struct RecodedLayer {
    /// The layer of the source; zero is the full-size image.
    pub layer: usize,
    pub width: u32,
    pub height: u32,
    pub tile_size: usize,
    /// Whether each band stands in blocks of its own.
    pub planar: bool,
    pub encoding: TileEncoding,
}

/// Layer `index` of an output that has the layers of the source, in their size, with the
/// tiles of the full-size image.
pub open spec fn transcoded_layer(
    source: SourceInfo,
    profile: RasterProfile,
    opts: CogOutputOptions,
    index: int,
) -> RecodedLayer {
    let ifd = layer_of(source, index)->0;
    let planar = is_planar_output(source, profile.bands);
    let tile_size = crop_tile_size(source, opts) as usize;
    RecodedLayer {
        layer: index as usize,
        width: ifd.width,
        height: ifd.height,
        tile_size,
        planar,
        encoding: tile_encoding(
            opts,
            tile_size,
            block_samples(planar, profile.bands),
            None,
            profile.sample.sample_format,
        ),
    }
}

/// The layers of an output that has the layers of the source, decoded and compressed
/// anew: the full-size image and every overview.
pub fn build_transcode_layers(
    source: &SourceInfo,
    profile: &RasterProfile,
    opts: &CogOutputOptions,
) -> (layers: Vec<RecodedLayer>)
    requires
        source.well_formed(),
        source.overviews@.len() < usize::MAX,
    ensures
        layers@.len() == 1 + source.overviews@.len(),
        forall|i: int|
            0 <= i < layers@.len() ==> #[trigger] layers@[i] == transcoded_layer(
                *source,
                *profile,
                *opts,
                i,
            ),
{
    let (tile_size, planar, samples) = block_layout(source, profile, opts);
    let encoding: TileEncoding = tile_encoding_from_opts(
        opts,
        tile_size,
        samples,
        None,
        profile.sample.sample_format,
    );
    let layer_count: usize = 1 + source.overviews.len();
    let mut layers: Vec<RecodedLayer> = Vec::new();
    let mut layer: usize = 0;
    while layer < layer_count
        invariant
            layer <= layer_count,
            layer_count == 1 + source.overviews@.len(),
            source.well_formed(),
            tile_size == crop_tile_size(*source, *opts),
            planar == is_planar_output(*source, profile.bands),
            samples == block_samples(planar, profile.bands),
            encoding == tile_encoding(
                *opts,
                tile_size,
                samples,
                None,
                profile.sample.sample_format,
            ),
            layers@.len() == layer,
            forall|i: int|
                0 <= i < layer ==> #[trigger] layers@[i] == transcoded_layer(
                    *source,
                    *profile,
                    *opts,
                    i,
                ),
        decreases layer_count - layer,
    {
        if let Some(ifd) = layer_ifd(source, layer) {
            layers.push(
                RecodedLayer {
                    layer,
                    width: ifd.width,
                    height: ifd.height,
                    tile_size,
                    planar,
                    encoding,
                },
            );
        }
        layer = layer + 1;
    }
    layers
}

/// Layers that are decoded and compressed anew keep their place and their size, all have the
/// tiles of the full-size image, and are compressed as the output asks for.
pub proof fn law_transcoded_layers_keep_their_size(
    source: SourceInfo,
    profile: RasterProfile,
    opts: CogOutputOptions,
    index: int,
    other: int,
)
    requires
        0 <= index <= source.overviews@.len() < usize::MAX,
    ensures
        ({
            let layer = transcoded_layer(source, profile, opts, index);
            let ifd = if index == 0 {
                source.ifds@[source.base_ifd as int]
            } else {
                source.overviews@[index - 1]
            };
            &&& layer.layer == index
            &&& layer.width == ifd.width
            &&& layer.height == ifd.height
            &&& layer.encoding.compression == opts.compression.scheme()
            &&& layer.encoding.tile_width == layer.tile_size
            &&& layer.tile_size == transcoded_layer(source, profile, opts, other).tile_size
            &&& layer.encoding == transcoded_layer(source, profile, opts, other).encoding
            &&& layer.encoding.samples_per_pixel == (if layer.planar {
                1
            } else {
                profile.bands as u16
            })
        }),
{
}

} // verus!
