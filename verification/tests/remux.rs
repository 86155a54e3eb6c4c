use gdal_alt_core::cog::options::{
    CogOutputOptions, CompressionChoice, LercAdditionalCompressionChoice, ResamplingChoice,
};
use gdal_alt_core::chunky_permute::build_chunky_band_permute_layers;
use gdal_alt_core::crop::WriteWindow;
use gdal_alt_core::hybrid_crop::{
    build_crop_overview_layer, build_hybrid_crop_layers, encode_chunky_tile, encode_planar_tile,
    generated_read_region, planar_work, CropSource, TileAction,
};
use gdal_alt_core::cog::grid::{tile_jobs, TileJob};
use gdal_alt_core::input::profile::{
    IfdInfo, RasterProfile, SampleLayout, SourceInfo, UnsupportedSampleFormat,
};
use gdal_alt_core::path::ConvertPath;
use gdal_alt_core::remux::{
    best_source_overview, input_overview_layer_sizes, input_overview_levels,
    permute_planar_layer_blocks, remux_encoded_layers, remux_levels,
    resolve_overview_read_source, try_remux_cog, PermuteError, ReadSource,
};
use gdal_alt_core::spool::CompressedBlock;
use gdal_alt_core::tiff::{
    PhotometricInterpretation, PlanarConfiguration, SampleFormat, SampleKind,
};
use gdal_alt_core::transcode::build_transcode_layers;

fn ifd(width: u32, height: u32, tile: u32) -> IfdInfo {
    IfdInfo {
        width,
        height,
        tile_width: Some(tile),
        tile_height: Some(tile),
        tiled: true,
        rows_per_strip: 0,
        samples_per_pixel: 3,
        bits_per_sample: Some(8),
        compression: 8,
        predictor: 2,
        planar_configuration: 1,
        sample_format: Some(1),
        photometric: Some(2),
        new_subfile_type: None,
        subfile_type: None,
    }
}

fn source() -> SourceInfo {
    SourceInfo {
        ifds: vec![ifd(1024, 1024, 512), ifd(512, 512, 512)],
        base_ifd: 0,
        overviews: vec![ifd(512, 512, 512)],
        band_count: 3,
    }
}

fn profile() -> RasterProfile {
    RasterProfile {
        width: 1024,
        height: 1024,
        bands: 3,
        sample: SampleLayout { bits_per_sample: 8, sample_format: SampleFormat::Uint },
        photometric: PhotometricInterpretation::Rgb,
        planar_configuration: PlanarConfiguration::Chunky,
        extra_samples: vec![],
        nodata: None,
    }
}

fn opts(compression: CompressionChoice) -> CogOutputOptions {
    CogOutputOptions {
        blocksize: 512,
        compression,
        deflate_level: 6,
        resampling: ResamplingChoice::Nearest,
        overview_levels: None,
        no_overviews: false,
        mask_from_alpha: false,
        black_rgb_transparent: false,
        jpeg_quality: 75,
        lerc_additional_compression: LercAdditionalCompressionChoice::Uncompressed,
    }
}

#[test]
fn blocks_are_copied_where_they_fit() {
    let deflate = opts(CompressionChoice::Deflate);
    let zstd = opts(CompressionChoice::Zstd);
    let window = WriteWindow { col_off: 0, row_off: 0, width: 512, height: 512 };
    let path = |source: &SourceInfo, opts, window, bands| {
        try_remux_cog(source, &profile(), opts, window, bands).unwrap()
    };
    assert_eq!(path(&source(), &deflate, None, None), Some(ConvertPath::RemuxIdentity));
    assert_eq!(
        path(&source(), &deflate, None, Some(&[1, 2, 3][..])),
        Some(ConvertPath::RemuxIdentity)
    );
    assert_eq!(path(&source(), &zstd, None, None), Some(ConvertPath::TranscodeRemux));
    assert_eq!(path(&source(), &deflate, Some(&window), None), Some(ConvertPath::HybridCropRemux));
    assert_eq!(
        path(&source(), &deflate, None, Some(&[3, 2, 1][..])),
        Some(ConvertPath::ChunkyBandPermute)
    );
    let mut bare = source();
    bare.overviews.clear();
    assert_eq!(path(&bare, &zstd, None, None), None);
    // The overview of the crop has no overview of the source to come from.
    assert_eq!(path(&bare, &deflate, Some(&window), None), None);
    assert_eq!(path(&bare, &deflate, None, None), Some(ConvertPath::RemuxIdentity));
    let mut coarse = source();
    coarse.overviews[0].tile_width = Some(256);
    assert_eq!(path(&coarse, &deflate, None, None), Some(ConvertPath::TranscodeRemux));
    let mut strips = source();
    strips.ifds[0].tiled = false;
    assert_eq!(path(&strips, &deflate, None, None), Some(ConvertPath::StripEncode));
    assert_eq!(path(&strips, &deflate, None, Some(&[2][..])), None);
}

#[test]
fn planes_are_permuted_without_encoding() {
    let mut planar = source();
    planar.ifds[0].planar_configuration = 2;
    let mut profile = profile();
    profile.planar_configuration = PlanarConfiguration::Planar;
    let deflate = opts(CompressionChoice::Deflate);
    assert_eq!(
        try_remux_cog(&planar, &profile, &deflate, None, Some(&[2, 1][..])),
        Ok(Some(ConvertPath::PlanarBandPermute))
    );
}

#[test]
fn unknown_sample_formats_are_errors() {
    let mut odd = source();
    odd.ifds[0].sample_format = Some(9);
    assert_eq!(
        try_remux_cog(&odd, &profile(), &opts(CompressionChoice::Deflate), None, None),
        Err(UnsupportedSampleFormat { code: 9 })
    );
    assert_eq!(
        build_chunky_band_permute_layers(&odd, &[1], &opts(CompressionChoice::Deflate))
            .unwrap_err()
            .code,
        9
    );
}

#[test]
fn overviews_of_the_source_are_counted_in_levels() {
    assert_eq!(input_overview_levels(&source()), vec![2]);
    assert_eq!(input_overview_layer_sizes(&source()), vec![(512, 512)]);
    assert_eq!(best_source_overview(&[2, 4, 8], 3), Some((1, 4)));
    assert_eq!(best_source_overview(&[2, 4, 8], 9), None);
    assert_eq!(
        resolve_overview_read_source(&source(), 2),
        ReadSource { layer: 1, factor: 2, downsample: 1 }
    );
    assert_eq!(
        resolve_overview_read_source(&source(), 8),
        ReadSource { layer: 0, factor: 1, downsample: 8 }
    );
    assert_eq!(
        resolve_overview_read_source(&source(), 4),
        ReadSource { layer: 0, factor: 1, downsample: 4 }
    );
    assert_eq!(
        resolve_overview_read_source(&source(), 3),
        ReadSource { layer: 0, factor: 1, downsample: 3 }
    );
    let mut coarse = source();
    coarse.overviews[0].width = 256;
    assert_eq!(
        resolve_overview_read_source(&coarse, 2),
        ReadSource { layer: 0, factor: 1, downsample: 2 }
    );
    // A coarser overview is not read; a finer one is reduced.
    let mut both = source();
    both.overviews.push(ifd(128, 128, 512));
    assert_eq!(input_overview_levels(&both), vec![2, 8]);
    assert_eq!(
        resolve_overview_read_source(&both, 4),
        ReadSource { layer: 1, factor: 2, downsample: 2 }
    );
}

fn blocks(values: &[u8]) -> Vec<CompressedBlock> {
    values.iter().map(|value| CompressedBlock { payload: vec![*value], sparse: false }).collect()
}

fn payloads(blocks: &[CompressedBlock]) -> Vec<u8> {
    blocks.iter().map(|block| block.payload[0]).collect()
}

#[test]
fn permuted_planes_keep_their_tiles() {
    let mut plane = ifd(1024, 512, 512);
    plane.planar_configuration = 2;
    let layer = blocks(&[10, 11, 20, 21, 30, 31]);
    let swapped = permute_planar_layer_blocks(&layer, &plane, &[3, 1]).unwrap();
    assert_eq!(payloads(&swapped), vec![30, 31, 10, 11]);
    let same = permute_planar_layer_blocks(&layer, &plane, &[1, 2, 3]).unwrap();
    assert_eq!(payloads(&same), payloads(&layer));
    assert_eq!(
        permute_planar_layer_blocks(&layer, &plane, &[4]).unwrap_err(),
        PermuteError::BandOutOfRange { band: 4 }
    );
    assert_eq!(
        permute_planar_layer_blocks(&layer[1..], &plane, &[1]).unwrap_err(),
        PermuteError::UnexpectedBlockCount
    );
}

#[test]
fn written_levels_follow_the_layers() {
    let (levels, sizes) = remux_levels(
        &profile(),
        &opts(CompressionChoice::Deflate),
        2,
        Some(vec![2, 4, 8]),
        Some(vec![(512, 512), (256, 256)]),
    );
    assert_eq!(levels, Some(vec![2]));
    assert_eq!(sizes, Some(vec![(512, 512)]));
    let (automatic, none) =
        remux_levels(&profile(), &opts(CompressionChoice::Deflate), 2, None, None);
    assert_eq!(automatic, Some(vec![2]));
    assert_eq!(none, None);
    let (layout, kind) = remux_encoded_layers(
        &profile(),
        &opts(CompressionChoice::Deflate),
        2,
        Some(vec![2, 4]),
        Some(vec![(512, 512), (256, 256)]),
        true,
    )
    .unwrap();
    assert_eq!(layout.levels, Some(vec![2]));
    assert_eq!(layout.sizes, Some(vec![(512, 512)]));
    assert_eq!(kind, SampleKind::U8);
    let mut odd = profile();
    odd.sample.bits_per_sample = 12;
    assert!(remux_encoded_layers(&odd, &opts(CompressionChoice::Deflate), 1, None, None, false)
        .is_none());
}

#[test]
fn crops_cut_or_reduce_overviews_of_the_source() {
    let window = WriteWindow { col_off: 512, row_off: 0, width: 512, height: 512 };
    assert_eq!(
        build_crop_overview_layer(&source(), &window, &[2], &[2], 0),
        Some(CropSource::Cut {
            layer: 1,
            window: WriteWindow { col_off: 256, row_off: 0, width: 256, height: 256 }
        })
    );
    let reduced = Some(CropSource::Generated {
        layer: 1,
        window: WriteWindow { col_off: 256, row_off: 0, width: 256, height: 256 },
        factor: 2,
    });
    assert_eq!(build_crop_overview_layer(&source(), &window, &[2], &[4], 0), reduced);
    assert_eq!(build_crop_overview_layer(&source(), &window, &[2], &[2, 4], 1), reduced);
    // Factors that do not divide that of the overview do not serve, and coarser ones neither.
    assert_eq!(build_crop_overview_layer(&source(), &window, &[2], &[2, 3], 1), None);
    let mut coarse = source();
    coarse.overviews[0] = ifd(256, 256, 512);
    assert_eq!(build_crop_overview_layer(&coarse, &window, &[4], &[2], 0), None);
    let deflate = opts(CompressionChoice::Deflate);
    let layers =
        build_hybrid_crop_layers(&source(), &window, &profile(), &deflate, &[2]).unwrap();
    assert_eq!(layers.len(), 2);
    assert_eq!(layers[0].origin, CropSource::Cut { layer: 0, window });
    assert_eq!((layers[1].width, layers[1].height), (512, 512));
    let mut bare = source();
    bare.overviews.clear();
    assert!(build_hybrid_crop_layers(&bare, &window, &profile(), &deflate, &[2]).is_none());
}

#[test]
fn finer_overviews_are_reduced_to_tiles_of_a_crop() {
    let window = WriteWindow { col_off: 256, row_off: 16, width: 256, height: 256 };
    let job = TileJob { col_off: 64, row_off: 0, cols: 64, rows: 32 };
    let read = generated_read_region(&window, &job, 4, 2);
    assert_eq!((read.col, read.row, read.cols, read.rows), (384, 16, 128, 64));
    assert_eq!(read.downsample, 2);
    let read = generated_read_region(&window, &job, 2, 2);
    assert_eq!((read.col, read.row, read.cols, read.rows), (320, 16, 64, 32));
    assert_eq!(read.downsample, 1);
}

#[test]
fn whole_tiles_are_copied_from_the_source() {
    let window = WriteWindow { col_off: 512, row_off: 512, width: 512, height: 512 };
    let job = TileJob { col_off: 0, row_off: 0, cols: 512, rows: 512 };
    let base = ifd(1024, 1024, 512);
    assert_eq!(encode_chunky_tile(&base, &window, &job, 512), TileAction::Copy { block: 3 });
    assert_eq!(
        encode_planar_tile(&base, &window, 2, &job, 512),
        TileAction::Copy { block: 2 * 4 + 3 }
    );
    let shifted = WriteWindow { col_off: 100, row_off: 512, width: 512, height: 512 };
    assert_eq!(
        encode_chunky_tile(&base, &shifted, &job, 512),
        TileAction::Encode { row: 512, col: 100 }
    );
}

#[test]
fn planar_work_goes_band_by_band() {
    let jobs = tile_jobs(1024, 512, 512);
    let work = planar_work(&jobs, 2);
    assert_eq!(work.len(), 4);
    assert_eq!(work[1].band, 0);
    assert_eq!(work[1].job.col_off, 512);
    assert_eq!(work[2].band, 1);
}

#[test]
fn recoded_layers_are_those_of_the_source() {
    let layers =
        build_transcode_layers(&source(), &profile(), &opts(CompressionChoice::Zstd));
    assert_eq!(layers.len(), 2);
    assert_eq!(layers[1].layer, 1);
    assert_eq!(layers[1].width, 512);
    assert_eq!(layers[1].tile_size, 512);
    let permuted =
        build_chunky_band_permute_layers(&source(), &[3, 1], &opts(CompressionChoice::Deflate))
            .unwrap();
    assert_eq!(permuted[0].encoding.samples_per_pixel, 2);
}
