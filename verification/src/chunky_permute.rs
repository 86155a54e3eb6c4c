//! Picking bands of a tiled file that interleaves them: all tiles are decoded and
//! compressed anew.
use crate::bands::{bands_exist, bands_positive, first_missing, lemma_bands_exist_extend};
use crate::cog::builder::{tile_encoding, tile_encoding_from_opts, TileEncoding};
use crate::cog::options::CogOutputOptions;
use crate::hybrid_crop::crop_tile_size;
use crate::input::profile::{
    ifd_predictor, ifd_sample_format, predictor_in, sample_format_in, IfdInfo, SourceInfo,
    UnsupportedSampleFormat,
};
use crate::raster::{build3, sample3, Grid3};
use crate::remux::{layer_ifd, layer_of};
use crate::transcode::RecodedLayer;
use vstd::prelude::*;

verus! {

/// A band that the source does not have.
#[derive(Debug, Clone, Copy, PartialEq, Eq, Structural)]
pub struct BandOutOfRange {
    pub band: usize,
}

/// Picks bands, counted from one, in the given order from the upper left `rows` by
/// `cols` pixels of a tile, and pads them on the right and below to `tile_size` by
/// `tile_size` pixels. The first band that does not exist is an error, unless there are
/// no pixels.
pub fn permute_and_pad_tile_chunky<T: Copy>(
    data: &Grid3<T>,
    bands: &[usize],
    rows: usize,
    cols: usize,
    tile_size: usize,
    fill: T,
) -> (result: Result<Vec<T>, BandOutOfRange>)
    requires
        data.well_formed(),
        rows <= data.rows,
        cols <= data.cols,
        rows <= tile_size,
        cols <= tile_size,
        bands_positive(bands@),
        tile_size * tile_size * bands@.len() <= usize::MAX,
    ensures
        match result {
            Ok(out) => {
                &&& rows > 0 && cols > 0 ==> bands_exist(bands@, data.bands as nat)
                &&& out@.len() == tile_size * tile_size * bands@.len()
                &&& forall|r: int, c: int, b: int|
                    0 <= r < tile_size && 0 <= c < tile_size && 0 <= b < bands@.len()
                        ==> #[trigger] sample3(
                        out@,
                        tile_size as int,
                        bands@.len() as int,
                        r,
                        c,
                        b,
                    ) == (if r < rows && c < cols {
                        data.at(r, c, bands@[b] - 1)
                    } else {
                        fill
                    })
            },
            Err(error) => rows > 0 && cols > 0 && first_missing(
                bands@,
                data.bands as nat,
                error.band,
            ),
        },
{
    if rows > 0 && cols > 0 {
        let mut i: usize = 0;
        while i < bands.len()
            invariant
                i <= bands@.len(),
                rows > 0,
                cols > 0,
                bands_positive(bands@),
                bands_exist(bands@.take(i as int), data.bands as nat),
            decreases bands@.len() - i,
        {
            if bands[i] - 1 >= data.bands {
                return Err(BandOutOfRange { band: bands[i] });
            }
            proof {
                lemma_bands_exist_extend(bands@, data.bands as nat, i as int);
            }
            i = i + 1;
        }
        assert(bands@.take(i as int) =~= bands@);
    }
    let out_bands: usize = bands.len();
    let pick = |r: usize, c: usize, b: usize| -> (value: T)
        requires
            r < tile_size,
            c < tile_size,
            b < out_bands,
        ensures
            value == (if r < rows && c < cols {
                data.at(r as int, c as int, bands@[b as int] - 1)
            } else {
                fill
            }),
        {
            if r < rows && c < cols {
                data.get(r, c, bands[b] - 1)
            } else {
                fill
            }
        };
    Ok(build3(tile_size, tile_size, out_bands, pick))
}

/// Layer `index` of an output with picked bands: as large as that layer of the source,
/// with the tiles of the full-size image and the layer's own predictor.
pub open spec fn permuted_layer(
    source: SourceInfo,
    band_count: nat,
    opts: CogOutputOptions,
    index: int,
) -> RecodedLayer {
    let ifd = layer_of(source, index)->0;
    let tile_size = crop_tile_size(source, opts) as usize;
    RecodedLayer {
        layer: index as usize,
        width: ifd.width,
        height: ifd.height,
        tile_size,
        planar: false,
        encoding: tile_encoding(
            opts,
            tile_size,
            band_count as u16,
            Some(predictor_in(ifd)),
            sample_format_in(ifd)->0,
        ),
    }
}

/// Whether the first `end` layers of a source have a known sample format.
pub open spec fn formats_known(source: SourceInfo, end: int) -> bool {
    forall|i: int|
        0 <= i < end ==> sample_format_in((#[trigger] layer_of(source, i))->0) is Some
}

/// Whether the first layer without a known sample format has this one.
pub open spec fn first_unknown_format(source: SourceInfo, error: UnsupportedSampleFormat) -> bool {
    exists|i: int|
        0 <= i <= source.overviews@.len() && formats_known(source, i) && sample_format_in(
            (#[trigger] layer_of(source, i))->0,
        ) is None && (layer_of(source, i)->0).sample_format == Some(error.code)
}

/// The layers of an output with picked bands: the full-size image and every overview. A
/// layer with an unknown sample format is an error.
pub fn build_chunky_band_permute_layers(
    source: &SourceInfo,
    bands: &[usize],
    opts: &CogOutputOptions,
) -> (result: Result<Vec<RecodedLayer>, UnsupportedSampleFormat>)
    requires
        source.well_formed(),
        source.overviews@.len() < usize::MAX,
    ensures
        match result {
            Ok(layers) => {
                &&& formats_known(*source, 1 + source.overviews@.len() as int)
                &&& layers@.len() == 1 + source.overviews@.len()
                &&& forall|i: int|
                    0 <= i < layers@.len() ==> #[trigger] layers@[i] == permuted_layer(
                        *source,
                        bands@.len(),
                        *opts,
                        i,
                    )
            },
            Err(error) => first_unknown_format(*source, error),
        },
{
    let base: IfdInfo = source.ifds[source.base_ifd];
    let tile_size: usize = match base.tile_width {
        Some(size) => size as usize,
        None => opts.blocksize as usize,
    };
    let samples: u16 = #[verifier::truncate]
    (bands.len() as u16);
    let layer_count: usize = 1 + source.overviews.len();
    let mut layers: Vec<RecodedLayer> = Vec::new();
    let mut layer: usize = 0;
    while layer < layer_count
        invariant
            layer <= layer_count,
            layer_count == 1 + source.overviews@.len(),
            source.well_formed(),
            tile_size == crop_tile_size(*source, *opts),
            samples == bands@.len() as u16,
            layers@.len() == layer,
            formats_known(*source, layer as int),
            forall|i: int|
                0 <= i < layer ==> #[trigger] layers@[i] == permuted_layer(
                    *source,
                    bands@.len(),
                    *opts,
                    i,
                ),
        decreases layer_count - layer,
    {
        if let Some(ifd) = layer_ifd(source, layer) {
            match ifd_sample_format(&ifd) {
                Err(error) => {
                    assert(layer_of(*source, layer as int) == Some(ifd));
                    return Err(error);
                },
                Ok(format) => {
                    let encoding: TileEncoding = tile_encoding_from_opts(
                        opts,
                        tile_size,
                        samples,
                        Some(ifd_predictor(&ifd)),
                        format,
                    );
                    layers.push(
                        RecodedLayer {
                            layer,
                            width: ifd.width,
                            height: ifd.height,
                            tile_size,
                            planar: false,
                            encoding,
                        },
                    );
                },
            }
        }
        layer = layer + 1;
    }
    Ok(layers)
}

/// Layers with picked bands keep their place and their size, hold all picked bands in one
/// block, and are compressed as the output asks for, with the predictor of their own.
pub proof fn law_permuted_layers_keep_their_size(
    source: SourceInfo,
    band_count: nat,
    opts: CogOutputOptions,
    index: int,
)
    requires
        0 <= index <= source.overviews@.len() < usize::MAX,
        band_count <= u16::MAX,
    ensures
        ({
            let layer = permuted_layer(source, band_count, opts, index);
            let ifd = if index == 0 {
                source.ifds@[source.base_ifd as int]
            } else {
                source.overviews@[index - 1]
            };
            &&& layer.layer == index
            &&& layer.width == ifd.width
            &&& layer.height == ifd.height
            &&& !layer.planar
            &&& layer.encoding.samples_per_pixel == band_count
            &&& layer.encoding.compression == opts.compression.scheme()
            &&& layer.encoding.predictor == predictor_in(ifd)
            &&& layer.encoding.tile_width == layer.tile_size
        }),
{
}

} // verus!
