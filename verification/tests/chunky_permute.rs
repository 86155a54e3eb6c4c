use gdal_alt_core::chunky_permute::permute_and_pad_tile_chunky;
use gdal_alt_core::raster::Grid3;

#[test]
fn permute_and_pad_reorders_bands_in_one_pass() {
    let data = Grid3 { rows: 2, cols: 1, bands: 3, samples: vec![1u8, 2, 3, 4, 5, 6] };
    let out = permute_and_pad_tile_chunky(&data, &[3, 1], 2, 1, 2, 0).unwrap();
    assert_eq!(out.len(), 2 * 2 * 2);
    assert_eq!(out[0], 3);
    assert_eq!(out[1], 1);
    assert_eq!(out[4], 6);
    assert_eq!(out[5], 4);
    // What the source does not cover is filled.
    assert_eq!(out[2], 0);
    assert_eq!(out[7], 0);
}

#[test]
fn permute_rejects_out_of_range_band() {
    let data = Grid3 { rows: 1, cols: 1, bands: 2, samples: vec![1u8, 2] };
    assert!(permute_and_pad_tile_chunky(&data, &[3], 1, 1, 1, 0).is_err());
    let error = permute_and_pad_tile_chunky(&data, &[2, 5, 3], 1, 1, 1, 0).unwrap_err();
    assert_eq!(error.band, 5);
}
