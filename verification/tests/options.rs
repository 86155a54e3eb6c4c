use gdal_alt_core::cog::builder::{
    apply_compression, configure_cog, configure_cog_with_layer_sizes_masked,
    tile_encoding_from_opts, OverviewStorage,
};
use gdal_alt_core::cog::options::{
    CogOutputOptions, CompressionChoice, LercAdditionalCompressionChoice, OptionError,
    ResamplingChoice,
};
use gdal_alt_core::tiff::{sample_kind, Compression, Predictor, SampleFormat, SampleKind};

fn opts(compression: CompressionChoice, blocksize: u32) -> CogOutputOptions {
    CogOutputOptions {
        blocksize,
        compression,
        deflate_level: 6,
        resampling: ResamplingChoice::Nearest,
        overview_levels: None,
        no_overviews: false,
        mask_from_alpha: true,
        black_rgb_transparent: false,
        jpeg_quality: 75,
        lerc_additional_compression: LercAdditionalCompressionChoice::Uncompressed,
    }
}

#[test]
fn deflate_opts_match_deflate_compression() {
    assert_eq!(
        opts(CompressionChoice::Deflate, 512).compression.to_compression(),
        Compression::Deflate
    );
}

#[test]
fn encode_predictor_none_for_float_even_with_deflate() {
    let o = opts(CompressionChoice::Deflate, 512);
    assert_eq!(o.encode_predictor_for(SampleFormat::Float), Predictor::Identity);
    assert_eq!(o.encode_predictor_for(SampleFormat::Uint), Predictor::Horizontal);
}

#[test]
fn names_of_options_are_read_in_any_case() {
    assert_eq!(CompressionChoice::from_name("DEFLATE"), Ok(CompressionChoice::Deflate));
    assert_eq!(CompressionChoice::from_name("zstd"), Ok(CompressionChoice::Zstd));
    assert_eq!(CompressionChoice::from_name("brotli"), Err(OptionError::UnknownName));
    assert_eq!(ResamplingChoice::from_name("Average"), Ok(ResamplingChoice::Average));
    assert_eq!(ResamplingChoice::from_name("mode"), Err(OptionError::UnknownName));
    assert_eq!(
        LercAdditionalCompressionChoice::from_name("deflate"),
        Ok(LercAdditionalCompressionChoice::Deflate)
    );
    assert_eq!(
        LercAdditionalCompressionChoice::from_name("lzw"),
        Err(OptionError::UnknownName)
    );
}

#[test]
fn options_are_checked_before_use() {
    assert_eq!(opts(CompressionChoice::Deflate, 512).validate(false), Ok(()));
    assert_eq!(
        opts(CompressionChoice::Deflate, 500).validate(false),
        Err(OptionError::BlocksizeNotMultipleOf16)
    );
    let mut deep = opts(CompressionChoice::Deflate, 512);
    deep.deflate_level = 13;
    assert_eq!(deep.validate(false), Err(OptionError::DeflateLevelTooHigh));
    let mut coarse = opts(CompressionChoice::Jpeg, 512);
    coarse.jpeg_quality = 0;
    assert_eq!(coarse.validate(false), Err(OptionError::JpegQualityOutOfRange));
    assert_eq!(
        opts(CompressionChoice::Lerc, 512).validate(true),
        Err(OptionError::NegativeLercError)
    );
}

#[test]
fn overview_levels_double_until_a_block_holds_the_image() {
    let o = opts(CompressionChoice::Deflate, 512);
    assert_eq!(o.effective_overview_levels(4096, 3000), vec![2, 4, 8]);
    assert_eq!(o.effective_overview_levels(512, 512), Vec::<u32>::new());
    let mut listed = opts(CompressionChoice::Deflate, 512);
    listed.overview_levels = Some(vec![3, 9]);
    assert_eq!(listed.effective_overview_levels(4096, 3000), vec![3, 9]);
    let mut without = opts(CompressionChoice::Deflate, 512);
    without.no_overviews = true;
    assert_eq!(without.effective_overview_levels(4096, 3000), Vec::<u32>::new());
}

#[test]
fn compression_settings_follow_the_scheme() {
    let deflate = apply_compression(&opts(CompressionChoice::Deflate, 512), SampleFormat::Uint);
    assert_eq!(deflate.compression, Compression::Deflate);
    assert_eq!(deflate.deflate_level, Some(6));
    assert_eq!(deflate.jpeg_quality, None);
    let jpeg = apply_compression(&opts(CompressionChoice::Jpeg, 512), SampleFormat::Uint);
    assert_eq!(jpeg.compression, Compression::Jpeg);
    assert_eq!(jpeg.jpeg_quality, Some(75));
    let lerc = apply_compression(&opts(CompressionChoice::Lerc, 512), SampleFormat::Uint);
    assert_eq!(lerc.lerc_additional, Some(LercAdditionalCompressionChoice::Uncompressed));
}

#[test]
fn tile_encoding_takes_the_predictor_of_the_source() {
    let o = opts(CompressionChoice::Deflate, 256);
    let own = tile_encoding_from_opts(&o, 256, 3, None, SampleFormat::Uint);
    assert_eq!(own.predictor, Predictor::Horizontal);
    assert_eq!(own.samples_per_pixel, 3);
    assert_eq!(own.tile_width, 256);
    let given =
        tile_encoding_from_opts(&o, 256, 3, Some(Predictor::Identity), SampleFormat::Uint);
    assert_eq!(given.predictor, Predictor::Identity);
}

#[test]
fn layouts_store_overviews_beside_masks() {
    let o = opts(CompressionChoice::Deflate, 512);
    let plain = configure_cog(&o, 2048, 2048);
    assert_eq!(plain.storage, OverviewStorage::SubIfds);
    let masked = configure_cog_with_layer_sizes_masked(&o, vec![2], vec![(1024, 1024)]);
    assert_eq!(masked.storage, OverviewStorage::TopLevelIfds);
    assert_eq!(masked.levels, Some(vec![2]));
    assert_eq!(masked.sizes, Some(vec![(1024, 1024)]));
}

#[test]
fn sample_kinds_are_whole_bytes() {
    assert_eq!(sample_kind(16, SampleFormat::Int), Some(SampleKind::I16));
    assert_eq!(sample_kind(32, SampleFormat::Float), Some(SampleKind::F32));
    assert_eq!(sample_kind(8, SampleFormat::Float), None);
    assert_eq!(sample_kind(12, SampleFormat::Uint), None);
}
