//! What the writer of the output file is set to.
use crate::cog::grid::{auto_overview_levels, is_auto_pyramid};
use crate::cog::options::{
    predictor_for, CogOutputOptions, CompressionChoice, LercAdditionalCompressionChoice,
    ResamplingChoice,
};
use crate::tiff::{Compression, Predictor, SampleFormat};
use vstd::prelude::*;

verus! {

/// How the blocks of the output are compressed. A setting that the compression does not
/// have is left alone.
#[derive(Debug, Clone, Copy, PartialEq, Eq, Structural)]
pub struct CompressionSettings {
    pub compression: Compression,
    pub predictor: Option<Predictor>,
    pub deflate_level: Option<u32>,
    pub jpeg_quality: Option<u8>,
    pub lerc_additional: Option<LercAdditionalCompressionChoice>,
}

/// The compression settings of the output: a level for Deflate and Zstandard, a
/// predictor for these two and for LZW, the quality for JPEG, and the second compression
/// for LERC.
pub fn apply_compression(
    opts: &CogOutputOptions,
    sample_format: SampleFormat,
) -> (settings: CompressionSettings)
    ensures
        settings.compression == opts.compression.scheme(),
        settings.deflate_level == (if opts.compression is Deflate || opts.compression is Zstd {
            Some(opts.deflate_level)
        } else {
            None
        }),
        settings.predictor == (if opts.compression is Deflate || opts.compression is Zstd
            || opts.compression is Lzw {
            Some(predictor_for(opts.compression, sample_format))
        } else {
            None
        }),
        settings.jpeg_quality == (if opts.compression is Jpeg {
            Some(opts.jpeg_quality)
        } else {
            None
        }),
        settings.lerc_additional == (if opts.compression is Lerc {
            Some(opts.lerc_additional_compression)
        } else {
            None
        }),
{
    let predictor = opts.encode_predictor_for(sample_format);
    let mut settings = CompressionSettings {
        compression: opts.compression.to_compression(),
        predictor: None,
        deflate_level: None,
        jpeg_quality: None,
        lerc_additional: None,
    };
    match opts.compression {
        CompressionChoice::Deflate | CompressionChoice::Zstd => {
            settings.deflate_level = Some(opts.deflate_level);
            settings.predictor = Some(predictor);
        },
        CompressionChoice::Lerc => {
            settings.lerc_additional = Some(opts.lerc_additional_compression);
        },
        CompressionChoice::Jpeg => {
            settings.jpeg_quality = Some(opts.jpeg_quality);
        },
        CompressionChoice::Lzw => {
            settings.predictor = Some(predictor);
        },
        CompressionChoice::Uncompressed => {},
    }
    settings
}

/// How one tile is compressed.
#[derive(Debug, Clone, Copy, PartialEq, Eq, Structural)]
pub struct TileEncoding {
    pub compression: Compression,
    pub predictor: Predictor,
    pub samples_per_pixel: u16,
    pub tile_width: usize,
    pub tile_height: u32,
    pub deflate_level: u32,
    pub jpeg_quality: Option<u8>,
    pub lerc_additional: Option<LercAdditionalCompressionChoice>,
}

/// How the square tiles of the output are compressed. Without a predictor of its own a
/// tile gets the one that fits compression and sample format.
pub open spec fn tile_encoding(
    opts: CogOutputOptions,
    tile_size: usize,
    samples_per_pixel: u16,
    predictor: Option<Predictor>,
    sample_format: SampleFormat,
) -> TileEncoding {
    TileEncoding {
        compression: opts.compression.scheme(),
        predictor: match predictor {
            Some(given) => given,
            None => predictor_for(opts.compression, sample_format),
        },
        samples_per_pixel,
        tile_width: tile_size,
        tile_height: tile_size as u32,
        deflate_level: opts.deflate_level,
        jpeg_quality: if opts.compression is Jpeg {
            Some(opts.jpeg_quality)
        } else {
            None
        },
        lerc_additional: if opts.compression is Lerc {
            Some(opts.lerc_additional_compression)
        } else {
            None
        },
    }
}

/// How the square tiles of the output are compressed.
pub fn tile_encoding_from_opts(
    opts: &CogOutputOptions,
    tile_size: usize,
    samples_per_pixel: u16,
    predictor: Option<Predictor>,
    sample_format: SampleFormat,
) -> (encoding: TileEncoding)
    ensures
        encoding == tile_encoding(*opts, tile_size, samples_per_pixel, predictor, sample_format),
{
    let (lerc_additional, jpeg_quality) = match opts.compression {
        CompressionChoice::Lerc => (Some(opts.lerc_additional_compression), None),
        CompressionChoice::Jpeg => (None, Some(opts.jpeg_quality)),
        _ => (None, None),
    };
    TileEncoding {
        compression: opts.compression.to_compression(),
        predictor: match predictor {
            Some(given) => given,
            None => opts.encode_predictor_for(sample_format),
        },
        samples_per_pixel,
        tile_width: tile_size,
        tile_height: #[verifier::truncate]
        (tile_size as u32),
        deflate_level: opts.deflate_level,
        jpeg_quality,
        lerc_additional,
    }
}

/// Where the directories of the overviews stand in the output.
#[derive(Debug, Clone, Copy, PartialEq, Eq, Structural)]
pub enum OverviewStorage {
    /// Below the directory of the full-size image.
    SubIfds,
    /// Beside it.
    TopLevelIfds,
}

/// The overviews of the output: their factors, from the largest overview on, none where
/// the output has no overviews; and their sizes where they are not the raster's size
/// divided by the factor.
#[derive(Debug)]
pub struct CogLayout {
    pub resampling: ResamplingChoice,
    pub storage: OverviewStorage,
    pub levels: Option<Vec<u32>>,
    pub sizes: Option<Vec<(u32, u32)>>,
}

/// The overviews that the options ask for, below the directory of the image.
pub fn configure_cog(opts: &CogOutputOptions, width: u32, height: u32) -> (layout: CogLayout)
    ensures
        layout.resampling == opts.resampling,
        layout.storage == OverviewStorage::SubIfds,
        layout.sizes is None,
        layout.levels is None <==> opts.no_overviews,
        layout.levels matches Some(levels) ==> match opts.overview_levels {
            Some(given) => levels@ == given@,
            None => is_auto_pyramid(
                width as nat,
                height as nat,
                opts.blocksize as nat,
                levels@,
            ),
        },
{
    let levels: Option<Vec<u32>> = if opts.no_overviews {
        None
    } else {
        match &opts.overview_levels {
            Some(given) => Some(given.clone()),
            None => Some(auto_overview_levels(width, height, opts.blocksize)),
        }
    };
    assert(levels matches Some(found) ==> opts.overview_levels matches Some(given) ==> found@
        =~= given@);
    CogLayout { resampling: opts.resampling, storage: OverviewStorage::SubIfds, levels, sizes: None }
}

/// Overviews with the given factors, below the directory of the image.
pub fn configure_cog_with_levels(opts: &CogOutputOptions, levels: Vec<u32>) -> (layout: CogLayout)
    ensures
        layout.resampling == opts.resampling,
        layout.storage == OverviewStorage::SubIfds,
        layout.levels == Some(levels),
        layout.sizes is None,
{
    CogLayout {
        resampling: opts.resampling,
        storage: OverviewStorage::SubIfds,
        levels: Some(levels),
        sizes: None,
    }
}

/// Overviews with the given factors and sizes, below the directory of the image.
pub fn configure_cog_with_layer_sizes(
    opts: &CogOutputOptions,
    levels: Vec<u32>,
    overview_sizes: Vec<(u32, u32)>,
) -> (layout: CogLayout)
    ensures
        layout.resampling == opts.resampling,
        layout.storage == OverviewStorage::SubIfds,
        layout.levels == Some(levels),
        layout.sizes == Some(overview_sizes),
{
    CogLayout {
        resampling: opts.resampling,
        storage: OverviewStorage::SubIfds,
        levels: Some(levels),
        sizes: Some(overview_sizes),
    }
}

/// Overviews with the given factors and sizes, beside the directory of the image, where
/// readers look for the masks of a dataset.
pub fn configure_cog_with_layer_sizes_masked(
    opts: &CogOutputOptions,
    levels: Vec<u32>,
    overview_sizes: Vec<(u32, u32)>,
) -> (layout: CogLayout)
    ensures
        layout.resampling == opts.resampling,
        layout.storage == OverviewStorage::TopLevelIfds,
        layout.levels == Some(levels),
        layout.sizes == Some(overview_sizes),
{
    CogLayout {
        resampling: opts.resampling,
        storage: OverviewStorage::TopLevelIfds,
        levels: Some(levels),
        sizes: Some(overview_sizes),
    }
}

/// Tiles are compressed as the options say: with their compression, with the predictor that
/// is given or else the one that suits it, in square tiles, and with a quality only for JPEG
/// and a second compression only for LERC.
pub proof fn law_encoding_follows_options(
    opts: CogOutputOptions,
    tile_size: usize,
    samples_per_pixel: u16,
    predictor: Option<Predictor>,
    sample_format: SampleFormat,
)
    ensures
        ({
            let encoding = tile_encoding(
                opts,
                tile_size,
                samples_per_pixel,
                predictor,
                sample_format,
            );
            &&& encoding.compression == opts.compression.scheme()
            &&& predictor matches Some(given) ==> encoding.predictor == given
            &&& encoding.samples_per_pixel == samples_per_pixel
            &&& encoding.tile_width == tile_size
            &&& tile_size <= u32::MAX ==> encoding.tile_height == encoding.tile_width
            &&& encoding.deflate_level == opts.deflate_level
            &&& encoding.jpeg_quality is Some <==> opts.compression is Jpeg
            &&& encoding.jpeg_quality matches Some(quality) ==> quality == opts.jpeg_quality
            &&& encoding.lerc_additional is Some <==> opts.compression is Lerc
            &&& encoding.lerc_additional matches Some(second) ==> second
                == opts.lerc_additional_compression
        }),
{
}

} // verus!
