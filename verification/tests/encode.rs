use gdal_alt_core::cog::grid::{tile_jobs, TileJob};
use gdal_alt_core::cog::mask_layers::MaskOrigin;
use gdal_alt_core::cog::options::{
    CogOutputOptions, CompressionChoice, LercAdditionalCompressionChoice, ResamplingChoice,
};
use gdal_alt_core::crop::WriteWindow;
use gdal_alt_core::encode::base_parts::plan_base_parts;
use gdal_alt_core::encode::chain::{
    convert_tiled_to_remux_cog, convert_to_remux_cog, encode_layers_with_spool,
    encode_overview_layers_to_spool, plan_overview_layers, should_chain_from_parent,
    OverviewOrigin,
};
use gdal_alt_core::encode::delivery::EncodedBlock;
use gdal_alt_core::encode::plan::{
    overview_read_region, overview_source_window, plan_overview_row_batch, plan_strip_row_batch,
    OverviewSource,
};
use gdal_alt_core::encode::regions::{read_overview_row_batch, read_strip_row_batch};
use gdal_alt_core::encode::source_tiles::plan_source_tiles;
use gdal_alt_core::encode::tiles::{BandError, StripTile};
use gdal_alt_core::input::profile::{IfdInfo, RasterProfile, SampleLayout, SourceInfo};
use gdal_alt_core::raster::{Grid2, Grid3};
use gdal_alt_core::spool::{CompressedBlock, SpoolError};
use gdal_alt_core::tiff::{PhotometricInterpretation, PlanarConfiguration, SampleFormat};

fn ifd(width: u32, height: u32) -> IfdInfo {
    IfdInfo {
        width,
        height,
        tile_width: Some(512),
        tile_height: Some(512),
        tiled: true,
        rows_per_strip: 0,
        samples_per_pixel: 3,
        bits_per_sample: Some(8),
        compression: 8,
        predictor: 1,
        planar_configuration: 1,
        sample_format: Some(1),
        photometric: Some(2),
        new_subfile_type: None,
        subfile_type: None,
    }
}

fn source(overviews: Vec<IfdInfo>) -> SourceInfo {
    SourceInfo { ifds: vec![ifd(4096, 4096)], base_ifd: 0, overviews, band_count: 3 }
}

#[test]
fn overviews_are_made_from_their_parent() {
    let bare = source(vec![]);
    assert!(should_chain_from_parent(&bare, 2, 4));
    assert!(!should_chain_from_parent(&bare, 2, 8));
    let plan = plan_overview_layers(&bare, 4096, 4096, 512, &[2, 4]);
    assert_eq!(plan.base_blocks, 64);
    let steps = plan.steps;
    assert_eq!(steps.len(), 2);
    assert_eq!(steps[0].width, 2048);
    assert_eq!(steps[0].block_count, 16);
    assert_eq!(steps[1].origin, OverviewOrigin::Parent { level: 2, downsample: 2 });
    assert!(steps[0].keep_decoded);
    assert!(!steps[1].keep_decoded);
}

#[test]
fn overviews_of_the_source_are_read_as_they_are() {
    let with = source(vec![ifd(2048, 2048), ifd(1024, 1024)]);
    assert!(!should_chain_from_parent(&with, 2, 4));
    let steps = plan_overview_layers(&with, 4096, 4096, 512, &[2, 4]).steps;
    assert_eq!(steps[1].origin, OverviewOrigin::Source);
}

#[test]
fn tiled_sources_chain_levels_that_double() {
    let steps = convert_tiled_to_remux_cog(4096, 4096, 512, &[2, 4, 16]);
    assert_eq!(steps.len(), 3);
    assert_eq!(steps[1].origin, OverviewOrigin::Parent { level: 2, downsample: 2 });
    assert!(steps[0].keep_decoded);
}

#[test]
fn overview_windows_stay_within_the_source() {
    let job = TileJob { col_off: 2, row_off: 0, cols: 2, rows: 2 };
    // The last column of the source is narrower than the tile asks for.
    assert_eq!(overview_source_window(&job, 4, 15, 100, None), (8, 0, 7, 8));
    let window = WriteWindow { col_off: 100, row_off: 50, width: 16, height: 16 };
    assert_eq!(overview_source_window(&job, 2, 200, 100, Some(window)), (104, 50, 4, 4));
    let region = overview_read_region(&job, 4, 2, None);
    assert_eq!(region, (4, 0, 4, 4, 1));
}

#[test]
fn strips_are_read_once_for_a_row_of_tiles() {
    let jobs = tile_jobs(10, 4, 4);
    let batch = plan_strip_row_batch(3, None, None, 0, &jobs, 0);
    assert_eq!(batch.cuts.len(), 3);
    assert_eq!((batch.read.row, batch.read.rows), (0, 4));
    assert_eq!((batch.read.col, batch.read.cols), (0, 10));
    assert_eq!(batch.cuts[2].crop_col, 8);
    assert_eq!(batch.cuts[2].crop_cols, 2);
    let shifted = plan_strip_row_batch(
        1,
        Some(WriteWindow { col_off: 3, row_off: 7, width: 10, height: 4 }),
        Some(&[2]),
        0,
        &jobs,
        5,
    );
    assert_eq!(shifted.read.row, 7);
    assert_eq!(shifted.read.col, 3);
    assert_eq!(shifted.read.band, Some(1));
    assert_eq!(shifted.cuts[0].block_index, 5);
}

#[test]
fn overview_batches_cover_their_tiles() {
    let jobs = tile_jobs(8, 4, 4);
    let plan = OverviewSource {
        source_layer: 0,
        source_factor: 1,
        target_level: 2,
        layer_downsample: 2,
        width: 16,
        height: 8,
        window: None,
    };
    let batches = plan_overview_row_batch(&plan, 3, None, 0, &jobs, 0);
    let cuts: usize = batches.iter().map(|batch| batch.cuts.len()).sum();
    assert_eq!(cuts, 2);
    for batch in &batches {
        for cut in &batch.cuts {
            assert!(cut.crop_row + cut.crop_rows <= batch.read.rows);
            assert!(cut.crop_col + cut.crop_cols <= batch.read.cols);
        }
    }
}

#[test]
fn source_tiles_know_the_blocks_they_touch() {
    // Source tiles of 3 by 3 pixels, output tiles of 2 by 2 pixels.
    let tiles = plan_source_tiles(4, 4, 2, 3, 3);
    assert_eq!(tiles.len(), 4);
    assert_eq!(tiles[0].blocks, vec![0, 1, 2, 3]);
    assert_eq!(tiles[1].area, TileJob { col_off: 3, row_off: 0, cols: 1, rows: 3 });
    assert_eq!(tiles[1].blocks, vec![1, 3]);
    assert_eq!(tiles[3].blocks, vec![3]);
}

#[test]
fn conversions_plan_bands_and_masks() {
    let profile = RasterProfile {
        width: 4096,
        height: 4096,
        bands: 3,
        sample: SampleLayout { bits_per_sample: 8, sample_format: SampleFormat::Uint },
        photometric: PhotometricInterpretation::Rgb,
        planar_configuration: PlanarConfiguration::Chunky,
        extra_samples: vec![],
        nodata: None,
    };
    let opts = CogOutputOptions {
        blocksize: 256,
        compression: CompressionChoice::Deflate,
        deflate_level: 6,
        resampling: ResamplingChoice::Average,
        overview_levels: None,
        no_overviews: false,
        mask_from_alpha: true,
        black_rgb_transparent: false,
        jpeg_quality: 75,
        lerc_additional_compression: LercAdditionalCompressionChoice::Uncompressed,
    };
    let plan = convert_to_remux_cog(&None, &profile, &opts, false);
    assert_eq!(plan.tile_size, 256);
    assert_eq!(plan.out_bands, 3);
    assert_eq!(plan.levels, vec![2, 4, 8, 16]);
    assert_eq!(plan.masks, MaskOrigin::Absent);
}

fn pixel(row: usize, col: usize, band: usize) -> u16 {
    (row * 100 + col * 10 + band) as u16
}

#[test]
fn full_size_tiles_keep_the_pixels_of_the_source() {
    let (width, height, tile) = (5usize, 3usize, 2usize);
    let window = WriteWindow { col_off: 1, row_off: 2, width, height };
    let selected = [3usize, 1];
    let jobs = tile_jobs(width as u32, height as u32, tile as u32);
    let across = 3;
    for row in 0..2usize {
        let batch = plan_strip_row_batch(
            2,
            Some(window),
            Some(&selected),
            row * tile,
            &jobs[row * across..(row + 1) * across],
            row * across,
        );
        assert_eq!(batch.read.band, None);
        let mut samples = Vec::new();
        for r in 0..batch.read.rows {
            for c in 0..batch.read.cols {
                for b in 0..3 {
                    samples.push(pixel(batch.read.row + r, batch.read.col + c, b));
                }
            }
        }
        let data = StripTile::Multi(Grid3 {
            rows: batch.read.rows,
            cols: batch.read.cols,
            bands: 3,
            samples,
        });
        let tiles = match read_strip_row_batch(&data, &batch, Some(&selected), 2, tile, 9999) {
            Ok(tiles) => tiles,
            Err(_) => panic!("the bands exist"),
        };
        assert_eq!(tiles.len(), across);
        for (col, made) in tiles.iter().enumerate() {
            assert_eq!(made.block_index, row * across + col);
            assert_eq!((made.col_off, made.row_off), (col * tile, row * tile));
            let block = &made.samples;
            for y in 0..tile {
                for x in 0..tile {
                    let (out_row, out_col) = (row * tile + y, col * tile + x);
                    let place = (y * tile + x) * 2;
                    if out_row < height && out_col < width {
                        assert_eq!(block[place], pixel(2 + out_row, 1 + out_col, 2));
                        assert_eq!(block[place + 1], pixel(2 + out_row, 1 + out_col, 0));
                    } else {
                        assert_eq!(block[place..place + 2], [9999, 9999]);
                    }
                }
            }
        }
    }
}

fn halved(rows: usize) -> (StripTile<u8>, gdal_alt_core::encode::plan::BatchRead) {
    let jobs = tile_jobs(3, 1, 2);
    let plan = OverviewSource {
        source_layer: 0,
        source_factor: 1,
        target_level: 2,
        layer_downsample: 2,
        width: 6,
        height: rows,
        window: None,
    };
    let mut batches = plan_overview_row_batch(&plan, 1, None, 0, &jobs, 0);
    assert_eq!(batches.len(), 1);
    let batch = batches.remove(0);
    let samples = (0..batch.read.rows * batch.read.cols).map(|at| at as u8 * 3).collect();
    let grid = Grid2 { rows: batch.read.rows, cols: batch.read.cols, samples };
    (StripTile::Single(grid), batch)
}

#[test]
fn overview_tiles_are_reduced_from_their_pixels() {
    let (data, batch) = halved(2);
    let nearest = ResamplingChoice::Nearest;
    let Ok(Some(tiles)) = read_overview_row_batch(&data, &batch, None, 1, 2, nearest, None, 7)
    else {
        panic!("the nearest sample is taken exactly");
    };
    assert_eq!(tiles.len(), 2);
    assert_eq!(tiles[0].samples, vec![0, 6, 7, 7]);
    assert_eq!(tiles[1].samples, vec![12, 7, 7, 7]);
    assert_eq!((tiles[1].block_index, tiles[1].col_off, tiles[1].row_off), (1, 2, 0));

    let average = ResamplingChoice::Average;
    let Ok(Some(tiles)) = read_overview_row_batch(&data, &batch, None, 1, 2, average, None, 7)
    else {
        panic!("the mean of integers is exact");
    };
    assert_eq!(tiles[0].samples, vec![11, 17, 7, 7]);
    assert_eq!(tiles[1].samples, vec![23, 7, 7, 7]);

    let bilinear = ResamplingChoice::Bilinear;
    assert!(matches!(
        read_overview_row_batch(&data, &batch, None, 1, 2, bilinear, None, 7),
        Ok(None)
    ));
}

#[test]
fn the_mean_of_no_pixels_is_zero() {
    let (data, batch) = halved(0);
    let average = ResamplingChoice::Average;
    let Ok(Some(tiles)) = read_overview_row_batch(&data, &batch, None, 1, 2, average, None, 7)
    else {
        panic!("the mean of integers is exact");
    };
    assert_eq!(tiles[0].samples, vec![0, 0, 7, 7]);
    let Ok(Some(tiles)) = read_overview_row_batch(&data, &batch, None, 1, 2, average, Some(9), 7)
    else {
        panic!("the mean of integers is exact");
    };
    assert_eq!(tiles[0].samples, vec![9, 9, 7, 7]);
}

#[test]
fn bands_that_are_missing_are_reported() {
    let jobs = tile_jobs(2, 1, 2);
    let selected = [1usize, 4];
    let batch = plan_strip_row_batch(2, None, Some(&selected), 0, &jobs, 0);
    let data = StripTile::Multi(Grid3 { rows: 1, cols: 2, bands: 3, samples: vec![0u8; 6] });
    assert!(matches!(
        read_strip_row_batch(&data, &batch, Some(&selected), 2, 2, 0),
        Err(BandError::Missing { band: 4 })
    ));
    assert!(matches!(
        read_strip_row_batch(&data, &batch, Some(&[]), 0, 2, 0),
        Err(BandError::Empty)
    ));
}

fn handed(indices: &[usize]) -> Vec<EncodedBlock> {
    indices
        .iter()
        .map(|index| EncodedBlock {
            index: *index,
            block: CompressedBlock { payload: vec![*index as u8], sparse: false },
        })
        .collect()
}

#[test]
fn the_full_size_image_comes_first_in_the_spool() {
    let bare = source(vec![]);
    let plan = plan_overview_layers(&bare, 1024, 1024, 512, &[2]);
    assert_eq!(plan.base_blocks, 4);
    assert_eq!(plan.steps[0].block_count, 1);
    // Blocks arrive in any order.
    let layers = || vec![handed(&[2, 0, 3, 1]), handed(&[0])];
    let mut spool = match encode_layers_with_spool(1024, 1024, 512, &[2], layers()) {
        Ok(spool) => spool,
        Err(_) => panic!("two layers fit a spool"),
    };
    assert_eq!(spool.layer_count(), 2);
    let more = encode_overview_layers_to_spool(&mut spool, 1024, 1024, 512, &[2], layers());
    assert!(more.is_ok());
    assert_eq!(spool.layer_count(), 4);
    let read = match spool.read_all_layers() {
        Ok(read) => read,
        Err(_) => panic!("the spool is whole"),
    };
    let lengths: Vec<usize> = read.iter().map(|layer| layer.len()).collect();
    assert_eq!(lengths, vec![4, 1, 4, 1]);
    let first: Vec<u8> = read[0].iter().map(|block| block.payload[0]).collect();
    assert_eq!(first, vec![0, 1, 2, 3]);
}

#[test]
fn layers_need_each_of_their_tiles_once() {
    let error = |layers| match encode_layers_with_spool(1024, 1024, 512, &[2], layers) {
        Ok(_) => panic!("the layers are not complete"),
        Err(error) => error,
    };
    assert!(matches!(
        error(vec![handed(&[0, 1, 2, 3])]),
        SpoolError::UnexpectedLayers { expected: 2, found: 1 }
    ));
    assert!(matches!(
        error(vec![handed(&[0, 1, 3]), handed(&[0])]),
        SpoolError::MissingBlocks { block_count: 4, written: 2, pending: 1 }
    ));
    assert!(matches!(
        error(vec![handed(&[0, 1, 2, 3]), handed(&[1])]),
        SpoolError::BlockIndexOutOfRange { index: 1, block_count: 1 }
    ));
    assert!(matches!(
        error(vec![handed(&[3, 3]), handed(&[0])]),
        SpoolError::DuplicateBlockIndex { index: 3 }
    ));
}

#[test]
fn parts_of_the_source_hold_whole_tiles() {
    let tiled = source(vec![]);
    let parts = plan_base_parts(&tiled, 4096, 4096, 256, None).unwrap();
    assert_eq!(parts.len(), 64);
    assert_eq!(parts[0].blocks, vec![0, 1, 16, 17]);
    assert!(plan_base_parts(&tiled, 4096, 4096, 1024, None).is_none());
    let window = WriteWindow { col_off: 0, row_off: 0, width: 512, height: 512 };
    assert!(plan_base_parts(&tiled, 512, 512, 256, Some(window)).is_none());
    let mut strip = source(vec![]);
    strip.ifds[0].tiled = false;
    strip.ifds[0].rows_per_strip = 4096;
    let parts = plan_base_parts(&strip, 4096, 4096, 256, None).unwrap();
    assert_eq!(parts.len(), 4);
    assert_eq!((parts[1].area.row_off, parts[1].area.rows), (1024, 1024));
    assert_eq!(parts[1].blocks.first(), Some(&64));
}

#[test]
fn finer_overviews_of_the_source_are_reduced_further() {
    let jobs = tile_jobs(3, 1, 2);
    let window = WriteWindow { col_off: 8, row_off: 4, width: 12, height: 4 };
    let plan = OverviewSource {
        source_layer: 1,
        source_factor: 2,
        target_level: 4,
        layer_downsample: 2,
        width: 40,
        height: 40,
        window: Some(window),
    };
    let batches = plan_overview_row_batch(&plan, 1, None, 0, &jobs, 0);
    assert_eq!(batches.len(), 2);
    let read = batches[1].read;
    assert_eq!((read.layer, read.col, read.row, read.cols, read.rows), (1, 8, 2, 2, 2));
    assert_eq!(batches[1].cuts[0].scale, Some(2));
}

#[test]
fn windows_are_read_from_overviews_of_the_source() {
    let window = WriteWindow { col_off: 64, row_off: 32, width: 128, height: 128 };
    let plan = OverviewSource {
        source_layer: 1,
        source_factor: 4,
        target_level: 4,
        layer_downsample: 1,
        width: 512,
        height: 512,
        window: Some(window),
    };
    let jobs = tile_jobs(32, 32, 16);
    let batches = plan_overview_row_batch(&plan, 1, None, 16, &jobs[2..], 2);
    assert_eq!(batches.len(), 1);
    let read = &batches[0].read;
    assert_eq!((read.layer, read.row, read.col), (1, 24, 16));
    assert_eq!((read.rows, read.cols), (16, 32));
}
