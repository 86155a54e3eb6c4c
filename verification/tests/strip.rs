use gdal_alt_core::crop::WriteWindow;
use gdal_alt_core::encode::decode::{
    plan_strip_windows, should_use_strip_windowed_decode,
    should_use_strip_windowed_decode_for_compression, should_use_tiled_source_decode,
    stream_base_layer_to_spool, strip_decode_window_rows, strip_rows_per_strip, BaseLayerPath,
    STRIP_DECODE_TILE_ROWS,
};
use gdal_alt_core::encode::tile_cache::DecodedTileSpool;
use gdal_alt_core::encode::tiles::StripTile;
use gdal_alt_core::input::profile::{IfdInfo, SourceInfo};
use gdal_alt_core::raster::Grid2;
use gdal_alt_core::tiff::Compression;

fn ifd(tiled: bool, rows_per_strip: u32, compression: u16) -> IfdInfo {
    IfdInfo {
        width: 1024,
        height: 25_976,
        tile_width: if tiled { Some(512) } else { None },
        tile_height: if tiled { Some(512) } else { None },
        tiled,
        rows_per_strip,
        samples_per_pixel: 1,
        bits_per_sample: Some(8),
        compression,
        predictor: 1,
        planar_configuration: 1,
        sample_format: Some(1),
        photometric: Some(1),
        new_subfile_type: None,
        subfile_type: None,
    }
}

fn source(base: IfdInfo) -> SourceInfo {
    SourceInfo { ifds: vec![base], base_ifd: 0, overviews: vec![], band_count: 1 }
}

fn small_window() -> WriteWindow {
    WriteWindow { col_off: 0, row_off: 0, width: 1024, height: 1024 }
}

fn check_window_caps() {
    assert_eq!(strip_decode_window_rows(25_976, 512), 512 * STRIP_DECODE_TILE_ROWS);
    assert_eq!(strip_decode_window_rows(512, 512), 512);
    assert_eq!(strip_decode_window_rows(1_024, 512), 1_024);
    assert_eq!(strip_decode_window_rows(2_048, 512), 2_048);
    assert_eq!(strip_decode_window_rows(2_049, 512), 512 * STRIP_DECODE_TILE_ROWS);
}

#[test]
fn tests_strip_decode_window_caps_large_strips() {
    check_window_caps();
}

#[test]
fn strip_encode_strip_decode_window_caps_large_strips() {
    check_window_caps();
}

fn check_windowed_decode() {
    // One strip over the whole image: only a compressed one is worth a window.
    assert!(!should_use_strip_windowed_decode_for_compression(
        Compression::Uncompressed,
        25_976,
        512,
        None,
    ));
    assert!(should_use_strip_windowed_decode_for_compression(
        Compression::Lzw,
        25_976,
        512,
        None,
    ));
    assert!(!should_use_strip_windowed_decode_for_compression(Compression::Lzw, 512, 512, None));
    assert!(!should_use_strip_windowed_decode_for_compression(
        Compression::Lzw,
        25_976,
        512,
        Some(small_window()),
    ));
}

#[test]
fn tests_strip_windowed_decode_only_for_compressed_full_image_strips() {
    check_windowed_decode();
}

#[test]
fn strip_encode_strip_windowed_decode_only_for_compressed_full_image_strips() {
    check_windowed_decode();
}

fn check_window_count() {
    let rows_per_strip = 25_976;
    let tile_size = 512;
    let image_height: usize = 25_976;
    let decode_window = strip_decode_window_rows(rows_per_strip, tile_size);
    let windows_per_strip = image_height.div_ceil(decode_window);
    assert_eq!(decode_window, 2048);
    assert_eq!(windows_per_strip, 13);
}

#[test]
fn tests_strip_window_count_scales_with_image_height() {
    check_window_count();
}

#[test]
fn strip_encode_strip_window_count_scales_with_image_height() {
    check_window_count();
}

fn check_spool_roundtrip() {
    let tile = StripTile::Single(Grid2 { rows: 2, cols: 2, samples: vec![1u16, 2, 3, 4] });
    let mut spool = DecodedTileSpool::<u16>::new();
    spool.insert(512, 1024, &tile);
    let loaded = spool.get(512, 1024).unwrap().unwrap();
    match loaded {
        StripTile::Single(data) => assert_eq!(data.get(0, 0), 1),
        _ => panic!("expected single-band tile"),
    }
    assert!(spool.get(0, 0).unwrap().is_none());
}

#[test]
fn tests_decoded_tile_spool_roundtrips_single_band_tile() {
    check_spool_roundtrip();
}

#[test]
fn strip_encode_decoded_tile_spool_roundtrips_single_band_tile() {
    check_spool_roundtrip();
}

#[test]
fn windowed_decode_reads_the_compression_tag() {
    let rows = 25_976;
    assert!(should_use_strip_windowed_decode(&ifd(false, 25_976, 5), rows, 512, None));
    assert!(!should_use_strip_windowed_decode(&ifd(false, 25_976, 1), rows, 512, None));
    // A code without a meaning counts as no compression.
    assert!(!should_use_strip_windowed_decode(&ifd(false, 25_976, 77), rows, 512, None));
    assert!(!should_use_strip_windowed_decode(&ifd(true, 25_976, 5), rows, 512, None));
    // More than one strip.
    assert!(!should_use_strip_windowed_decode(&ifd(false, 4096, 5), 4096, 512, None));
}

#[test]
fn base_layer_is_read_by_tiles_windows_or_row_groups() {
    assert_eq!(
        stream_base_layer_to_spool(&source(ifd(true, 512, 5)), 512, None),
        BaseLayerPath::SourceTiles
    );
    assert_eq!(
        stream_base_layer_to_spool(&source(ifd(false, 25_976, 5)), 512, None),
        BaseLayerPath::StripWindows { rows_per_strip: 25_976 }
    );
    assert_eq!(
        stream_base_layer_to_spool(&source(ifd(false, 4096, 5)), 512, None),
        BaseLayerPath::RowGroups
    );
    assert_eq!(
        stream_base_layer_to_spool(&source(ifd(false, 512, 5)), 512, None),
        BaseLayerPath::RowGroups
    );
    assert_eq!(
        stream_base_layer_to_spool(&source(ifd(true, 512, 5)), 512, Some(small_window())),
        BaseLayerPath::RowGroups
    );
    assert!(should_use_tiled_source_decode(&ifd(true, 512, 5), None));
    assert!(!should_use_tiled_source_decode(&ifd(false, 512, 5), None));
    assert_eq!(strip_rows_per_strip(&ifd(false, 700, 5)), 700);
}

#[test]
fn strip_windows_hold_whole_rows_of_tiles() {
    // One strip of 5000 rows in windows of 2048 rows; the tiles are 512 rows high.
    let windows = plan_strip_windows(600, 5000, 512, 5000);
    assert_eq!(windows.len(), 3);
    assert_eq!(windows[0].row_start, 0);
    assert_eq!(windows[0].row_count, 2048);
    assert_eq!(windows[0].first_block, 0);
    assert_eq!(windows[0].end_block, 8);
    assert_eq!(windows[2].row_start, 4096);
    assert_eq!(windows[2].row_count, 904);
    assert_eq!(windows[2].end_block, 20);
}

#[test]
fn tiles_that_are_kept_stay_whatever_is_read_or_inserted() {
    let tile = |value| StripTile::Single(Grid2 { rows: 2, cols: 2, samples: vec![value; 4] });
    for memory in [false, true] {
        let mut spool = if memory {
            DecodedTileSpool::<u16>::new_in_memory()
        } else {
            DecodedTileSpool::<u16>::new()
        };
        spool.insert(0, 0, &tile(1));
        spool.insert(2, 0, &tile(2));
        assert!(spool.try_get(0, 0).unwrap().is_some());
        spool.insert(4, 0, &tile(3));
        spool.insert(0, 0, &tile(7));
        for (col, value) in [(0, 7), (2, 2), (4, 3)] {
            match spool.try_get(col, 0).unwrap().unwrap() {
                StripTile::Single(data) => assert_eq!(data.samples, vec![value; 4]),
                StripTile::Multi(_) => panic!("one band expected"),
            }
        }
    }
}
