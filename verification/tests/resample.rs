use gdal_alt_core::cog::grid::TileJob;
use gdal_alt_core::cog::options::ResamplingChoice;
use gdal_alt_core::encode::parent::{downsample_parent_tile, stitch_parent_tile};
use gdal_alt_core::encode::plan::TileCut;
use gdal_alt_core::encode::regions::{cut_tile, reduce_tile};
use gdal_alt_core::encode::sample_bytes::{push_raw_all, read_raw_all};
use gdal_alt_core::encode::tile_cache::{
    spool_read_tile, spool_write_tile, DecodedTileSpool, TileCacheError,
};
use gdal_alt_core::encode::tiles::{
    encode_tile_samples, pad_tile_2d, select_bands, slice_strip_tile, BandError, StripTile,
};
use gdal_alt_core::raster::{Grid2, Grid3};
use gdal_alt_core::resample::{average_downsample_2d, downsample_2d, downsample_3d, nearest_downsample_2d};

fn grid(rows: usize, cols: usize, samples: Vec<u8>) -> Grid2<u8> {
    Grid2 { rows, cols, samples }
}

#[test]
fn nearest_takes_the_first_sample_of_a_block() {
    let src = grid(2, 4, vec![1, 2, 3, 4, 5, 6, 7, 8]);
    let out = nearest_downsample_2d(&src, 1, 2, 2, None);
    assert_eq!(out.samples, vec![1, 3]);
}

#[test]
fn averages_are_rounded_and_skip_missing_samples() {
    let src = grid(2, 4, vec![1, 2, 10, 0, 2, 2, 20, 0]);
    let out = average_downsample_2d(&src, 1, 2, 2, None);
    assert_eq!(out.samples, vec![2, 8]);
    let skipped = average_downsample_2d(&src, 1, 2, 2, Some(0));
    assert_eq!(skipped.samples, vec![2, 15]);
    let signed = Grid2 { rows: 1, cols: 2, samples: vec![-3i16, -4] };
    assert_eq!(average_downsample_2d(&signed, 1, 1, 2, None).samples, vec![-4]);
}

#[test]
fn a_constant_raster_keeps_its_value() {
    let src = grid(3, 3, vec![9; 9]);
    for method in [ResamplingChoice::Nearest, ResamplingChoice::Average] {
        let out = downsample_2d(&src, 2, 2, 2, method, None).unwrap();
        assert_eq!(out.samples, vec![9; 4]);
    }
}

#[test]
fn other_methods_are_left_to_floating_point() {
    let src = grid(2, 2, vec![1, 2, 3, 4]);
    assert!(downsample_2d(&src, 1, 1, 2, ResamplingChoice::Bilinear, None).is_none());
    let cube = Grid3 { rows: 2, cols: 2, bands: 2, samples: vec![1u8, 5, 1, 5, 3, 7, 3, 7] };
    let out = downsample_3d(&cube, 1, 1, 2, ResamplingChoice::Average, None).unwrap();
    assert_eq!(out.samples, vec![2, 6]);
}

#[test]
fn tiles_are_padded_to_their_size() {
    let tile = grid(1, 2, vec![7, 8]);
    assert_eq!(pad_tile_2d(&tile, 3, 0), vec![7, 8, 0, 0, 0, 0, 0, 0, 0]);
    let single = StripTile::Single(grid(1, 1, vec![5]));
    assert_eq!(encode_tile_samples(&single, 2, 1, 0), vec![5, 0, 0, 0]);
}

#[test]
fn bands_are_selected_by_number() {
    let data = Grid3 { rows: 1, cols: 2, bands: 3, samples: vec![1u8, 2, 3, 4, 5, 6] };
    assert_eq!(select_bands(&data, &[3, 1]).unwrap().samples, vec![3, 1, 6, 4]);
    assert!(matches!(select_bands(&data, &[4]), Err(BandError::Missing { band: 4 })));
}

#[test]
fn tiles_are_sliced_from_strips() {
    let strip = StripTile::Single(grid(2, 4, vec![1, 2, 3, 4, 5, 6, 7, 8]));
    let job = TileJob { col_off: 2, row_off: 10, cols: 2, rows: 2 };
    match slice_strip_tile(&strip, &job, 10, 0, 1).unwrap() {
        StripTile::Single(tile) => assert_eq!(tile.samples, vec![3, 4, 7, 8]),
        StripTile::Multi(_) => panic!("one band expected"),
    }
}

#[test]
fn samples_read_back_from_bytes() {
    let samples = vec![-2i16, 258];
    let mut bytes = vec![99u8];
    push_raw_all(&mut bytes, &samples);
    assert_eq!(bytes, vec![99, 0xfe, 0xff, 2, 1]);
    let back: Vec<i16> = read_raw_all(&bytes, 1, 2);
    assert_eq!(back, samples);
}

#[test]
fn tile_records_read_back() {
    let tile =
        StripTile::Multi(Grid3 { rows: 1, cols: 2, bands: 2, samples: vec![1u16, 2, 3, 4] });
    let record = spool_write_tile(&tile);
    let (back, length) = spool_read_tile::<u16>(&record).unwrap().unwrap();
    assert_eq!(length, record.len());
    match back {
        StripTile::Multi(grid) => {
            assert_eq!((grid.rows, grid.cols, grid.bands), (1, 2, 2));
            assert_eq!(grid.samples, vec![1, 2, 3, 4]);
        }
        StripTile::Single(_) => panic!("several bands expected"),
    }
    assert!(matches!(
        spool_read_tile::<u16>(&record[..record.len() - 1]),
        Err(TileCacheError::UnexpectedEnd)
    ));
    let mut odd = record.clone();
    odd[0] = 9;
    assert!(matches!(spool_read_tile::<u16>(&odd), Err(TileCacheError::InvalidTag { tag: 9 })));
}

fn parent() -> DecodedTileSpool<u8> {
    let mut spool = DecodedTileSpool::<u8>::new_in_memory();
    for (col, row, value) in [(0, 0, 10), (2, 0, 20), (0, 2, 30), (2, 2, 40)] {
        spool.insert(col, row, &StripTile::Single(grid(2, 2, vec![value; 4])));
    }
    spool
}

#[test]
fn parent_tiles_are_stitched_and_reduced() {
    let job = TileJob { col_off: 0, row_off: 0, cols: 2, rows: 2 };
    match stitch_parent_tile(&parent(), &job, 2, 1, 2).unwrap() {
        StripTile::Single(tile) => assert_eq!(
            tile.samples,
            vec![10, 10, 20, 20, 10, 10, 20, 20, 30, 30, 40, 40, 30, 30, 40, 40]
        ),
        StripTile::Multi(_) => panic!("one band expected"),
    }
    let reduced =
        downsample_parent_tile(&parent(), &job, 2, 1, 2, ResamplingChoice::Average, None)
            .unwrap()
            .unwrap();
    match reduced {
        StripTile::Single(tile) => assert_eq!(tile.samples, vec![10, 20, 30, 40]),
        StripTile::Multi(_) => panic!("one band expected"),
    }
}

#[test]
fn tiles_are_cut_from_reads_and_reduced() {
    let data = StripTile::Single(grid(3, 3, vec![1, 2, 3, 4, 5, 6, 7, 8, 9]));
    let cut = TileCut {
        block_index: 0,
        col_off: 0,
        row_off: 0,
        rows: 1,
        cols: 1,
        crop_row: 1,
        crop_col: 1,
        crop_rows: 2,
        crop_cols: 2,
        scale: Some(2),
    };
    let tile = cut_tile(&data, &cut, None).unwrap();
    match &tile {
        StripTile::Single(grid) => assert_eq!(grid.samples, vec![5, 6, 8, 9]),
        StripTile::Multi(_) => panic!("one band expected"),
    }
    match reduce_tile(&tile, 1, 1, 2, ResamplingChoice::Average, None).unwrap() {
        StripTile::Single(grid) => assert_eq!(grid.samples, vec![7]),
        StripTile::Multi(_) => panic!("one band expected"),
    }
}
