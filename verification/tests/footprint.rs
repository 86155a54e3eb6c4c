use gdal_alt_core::crop::WriteWindow;
use gdal_alt_core::footprint::georef::{
    resolve_footprint_georef, resolve_footprint_georef_profile, window_shift, FootprintGeorefKind,
    GeorefOffers, GeorefOrigin, WindowShift,
};
use gdal_alt_core::footprint::mask::{
    alpha_to_validity, alpha_u16_to_validity, black_rgb_u16_to_validity, black_rgb_u8_to_validity,
    assemble_mask, build_validity_mask, mask_to_validity, nodata_to_validity, read_validity_tile, ValidityMask,
    ValidityRead, ValidityReadError,
};
use gdal_alt_core::footprint::options::{
    resolve_validity_source, FootprintOptions, NodataKind, NodataValue, ResolvedValiditySource,
    ValidityError, ValiditySourceChoice,
};
use gdal_alt_core::footprint::output::{
    finish_footprint, footprint_crs, full_extent_pixel_ring, pixel_rings, rings_to_flat_coords,
    rings_to_wkt, FootprintOutputFormat,
};
use gdal_alt_core::footprint::tile_samples::{tile_validity, MissingValue, TileSamples};
use gdal_alt_core::footprint::trace::trace_rings;
use gdal_alt_core::input::profile::{RasterProfile, SampleLayout};
use gdal_alt_core::raster::{Grid2, Grid3};
use gdal_alt_core::tiff::{
    ExtraSample, PhotometricInterpretation, PlanarConfiguration, SampleFormat,
};

fn profile(bands: u32, extra_samples: Vec<ExtraSample>, nodata: Option<&str>) -> RasterProfile {
    RasterProfile {
        width: 8,
        height: 8,
        bands,
        sample: SampleLayout { bits_per_sample: 8, sample_format: SampleFormat::Uint },
        photometric: PhotometricInterpretation::Rgb,
        planar_configuration: PlanarConfiguration::Chunky,
        extra_samples,
        nodata: nodata.map(|text| text.to_string()),
    }
}

#[test]
fn trace_full_block_is_rectangle() {
    let valid = vec![1u8; 4 * 4];
    let rings = trace_rings(&valid, 4, 4);
    assert_eq!(rings.len(), 1);
    assert!(rings[0].len() >= 4);
}

#[test]
fn trace_hollow_center_produces_ring() {
    let mut valid = vec![1u8; 6 * 6];
    for row in 2..4 {
        for col in 2..4 {
            valid[row * 6 + col] = 0;
        }
    }
    let rings = trace_rings(&valid, 6, 6);
    assert!(!rings.is_empty());
    assert_eq!(rings.len(), 2);
}

#[test]
fn one_pixel_has_four_points_around_it() {
    let mut rings = trace_rings(&[1], 1, 1);
    assert_eq!(rings.len(), 1);
    let mut ring = rings.remove(0);
    ring.sort();
    // In half pixels, with a border of one pixel around the raster.
    assert_eq!(ring, vec![(1, 2), (2, 1), (2, 3), (3, 2)]);
}

#[test]
fn every_area_has_its_ring() {
    let rings = trace_rings(&[1, 0, 1], 3, 1);
    assert_eq!(rings.len(), 2);
    assert_eq!(rings[0].len(), 4);
    assert_eq!(rings[1].len(), 4);
    assert_ne!(rings[0], rings[1]);
    let different = trace_rings(&[1, 0, 1, 1], 4, 1);
    assert_eq!(different.len(), 2);
}

#[test]
fn nothing_valid_has_no_ring() {
    assert!(trace_rings(&[0; 9], 3, 3).is_empty());
    assert!(trace_rings(&[], 0, 5).is_empty());
}

#[test]
fn pixels_that_meet_in_a_corner_share_a_ring() {
    let rings = trace_rings(&[1, 0, 0, 1], 2, 2);
    assert_eq!(rings.len(), 1);
    assert_eq!(rings[0].len(), 8);
    let rings = trace_rings(&[0, 1, 1, 0], 2, 2);
    assert_eq!(rings.len(), 1);
    assert_eq!(rings[0].len(), 8);
    // Four pixels around a hole: the hole has a ring of its own.
    let rings = trace_rings(&[0, 1, 0, 1, 0, 1, 0, 1, 0], 3, 3);
    let mut lengths: Vec<usize> = rings.iter().map(|ring| ring.len()).collect();
    lengths.sort();
    assert_eq!(lengths, vec![4, 12]);
}

#[test]
fn valid_pixels_lie_inside_an_odd_number_of_rings() {
    let valid = [1, 1, 1, 0, 1, 0, 1, 1, 1, 1, 1, 0, 0, 0, 1, 1];
    let rings = trace_rings(&valid, 4, 4);
    for row in 0..4i64 {
        for col in 0..4i64 {
            // Points straight to the left of the middle of the pixel.
            let inside = rings
                .iter()
                .filter(|ring| {
                    ring.iter()
                        .filter(|point| point.1 == 2 * (row + 1) && point.0 < 2 * (col + 1))
                        .count()
                        % 2
                        == 1
                })
                .count();
            assert_eq!(inside % 2 == 1, valid[(row * 4 + col) as usize] != 0);
        }
    }
}

#[test]
fn footprint_rings_follow_the_mask() {
    let full = ValidityMask::filled(3, 2, 1);
    assert!(full.all_valid());
    assert_eq!(pixel_rings(&full), vec![vec![(0, 0), (6, 0), (6, 4), (0, 4), (0, 0)]]);
    assert_eq!(full_extent_pixel_ring(3, 2), pixel_rings(&full)[0]);
    let none = ValidityMask::filled(3, 2, 0);
    assert!(none.none_valid());
    assert!(pixel_rings(&none).is_empty());
    let mut part = ValidityMask::filled(3, 2, 0);
    part.bytes[0] = 1;
    assert_eq!(part.valid_count(), 1);
    assert_eq!(pixel_rings(&part).len(), 1);
}

#[test]
fn masks_are_put_together_from_tiles() {
    // Two by two tiles of a raster of three by three pixels.
    let tiles = vec![vec![1, 2, 3, 4], vec![5, 6], vec![7, 8], vec![9]];
    let mask = assemble_mask(3, 3, 2, &tiles);
    assert_eq!(mask.as_slice(), &[1, 2, 5, 3, 4, 6, 7, 8, 9]);
    // The same pixels in one tile.
    let whole = assemble_mask(3, 3, 4, &vec![vec![1, 2, 5, 3, 4, 6, 7, 8, 9]]);
    assert_eq!(whole.as_slice(), mask.as_slice());
}

#[test]
fn masks_are_told_from_what_is_read() {
    let profile = profile(1, vec![], Some("9"));
    let missing = Some(MissingValue::Exact(NodataValue::U8(9)));
    let window = Some(WriteWindow { col_off: 4, row_off: 2, width: 3, height: 2 });
    let tile = |rows, cols, samples| TileSamples::U8(Grid2 { rows, cols, samples });
    let nodata = ResolvedValiditySource::Nodata;
    let build = |source, size, tiles: Vec<TileSamples>| {
        build_validity_mask(false, &profile, source, missing, window, size, &tiles)
    };
    let full = build(ResolvedValiditySource::Full, 8, vec![]).unwrap();
    assert_eq!((full.width, full.height), (3, 2));
    assert_eq!(full.as_slice(), &[1, 1, 1, 1, 1, 1]);
    // The same pixels in one tile, and in two.
    let one = build(nodata, 4, vec![tile(2, 3, vec![9, 1, 9, 0, 9, 7])]).unwrap();
    assert_eq!(one.as_slice(), &[0, 1, 0, 1, 0, 1]);
    let two =
        build(nodata, 2, vec![tile(2, 2, vec![9, 1, 0, 9]), tile(2, 1, vec![9, 7])]).unwrap();
    assert_eq!(two.as_slice(), one.as_slice());
    assert_eq!(
        build(nodata, 4, vec![]).unwrap_err(),
        ValidityReadError::UnexpectedTiles { expected: 1, found: 0 }
    );
    assert_eq!(
        build(nodata, 4, vec![tile(3, 2, vec![0; 6])]).unwrap_err(),
        ValidityReadError::UnexpectedTile { index: 0 }
    );
    assert_eq!(
        build(nodata, 4, vec![TileSamples::Nothing]).unwrap_err(),
        ValidityReadError::UnexpectedTile { index: 0 }
    );
    assert_eq!(
        build(ResolvedValiditySource::DatasetMask, 4, vec![TileSamples::Nothing]).unwrap_err(),
        ValidityReadError::MissingMask
    );
}

#[test]
fn every_kind_of_sample_tells_valid_pixels() {
    let told = |read, missing, samples| tile_validity(&samples, read, missing, 1, 2);
    let grid = |a, b| Grid2 { rows: 1, cols: 2, samples: vec![a, b] };
    let mask = TileSamples::Mask(grid(0, 255));
    assert_eq!(told(ValidityRead::DatasetMask, None, mask), Some(vec![0, 1]));
    let alpha = ValidityRead::Alpha { band: 3, wide: true };
    let wide = Grid2 { rows: 1, cols: 2, samples: vec![300u16, 0] };
    assert_eq!(told(alpha, None, TileSamples::WideAlpha(wide)), Some(vec![1, 0]));
    assert_eq!(told(alpha, None, TileSamples::Alpha(grid(1, 0))), None);
    let black = Grid3 { rows: 1, cols: 2, bands: 3, samples: vec![0u8, 0, 0, 0, 0, 1] };
    let colors = ValidityRead::Colors { wide: false };
    assert_eq!(told(colors, None, TileSamples::Colors(black)), Some(vec![0, 1]));
    let float = Grid2 { rows: 1, cols: 2, samples: vec![true, false] };
    let samples = ValidityRead::Samples(NodataKind::F32);
    let missing = Some(MissingValue::Float);
    assert_eq!(told(samples, missing, TileSamples::Float(float)), Some(vec![0, 1]));
    let exact = Some(MissingValue::Exact(NodataValue::I32(-9)));
    let whole = Grid2 { rows: 1, cols: 2, samples: vec![-9i32, 9] };
    let samples = ValidityRead::Samples(NodataKind::I32);
    assert_eq!(told(samples, exact, TileSamples::I32(whole)), Some(vec![0, 1]));
    assert_eq!(told(ValidityRead::Nothing, None, TileSamples::Nothing), Some(vec![1, 1]));
}

#[test]
fn validity_is_zero_or_one() {
    assert_eq!(mask_to_validity(&vec![0, 1, 255]), vec![0, 1, 1]);
    let alpha = Grid2 { rows: 1, cols: 3, samples: vec![0u8, 1, 255] };
    assert_eq!(alpha_to_validity(&alpha), vec![0, 1, 1]);
    let wide = Grid2 { rows: 1, cols: 2, samples: vec![0u16, 300] };
    assert_eq!(alpha_u16_to_validity(&wide), vec![0, 1]);
    let colors = Grid3 { rows: 1, cols: 2, bands: 3, samples: vec![0u8, 0, 0, 0, 1, 0] };
    assert_eq!(black_rgb_u8_to_validity(&colors), vec![0, 1]);
    let wide_colors = Grid3 { rows: 1, cols: 2, bands: 3, samples: vec![0u16, 0, 0, 0, 0, 9] };
    assert_eq!(black_rgb_u16_to_validity(&wide_colors), vec![0, 1]);
    assert_eq!(nodata_to_validity(&vec![7i16, -9], NodataValue::I16(-9)), vec![1, 0]);
    assert_eq!(nodata_to_validity(&vec![9u8], NodataValue::U16(9)), vec![0]);
    assert_eq!(nodata_to_validity(&vec![44u8], NodataValue::U16(300)), vec![1]);
}

#[test]
fn validity_sources_are_asked_for_or_found() {
    let auto = FootprintOptions::default();
    let ask = |source| FootprintOptions { source, ..FootprintOptions::default() };
    let plain = profile(3, vec![], None);
    let alpha = profile(4, vec![ExtraSample::AssociatedAlpha], None);
    assert_eq!(
        resolve_validity_source(true, &alpha, true, &auto),
        Ok(ResolvedValiditySource::DatasetMask)
    );
    assert_eq!(
        resolve_validity_source(false, &alpha, true, &auto),
        Ok(ResolvedValiditySource::AssociatedAlpha)
    );
    let missing = profile(3, vec![], Some("0"));
    assert_eq!(
        resolve_validity_source(false, &missing, true, &auto),
        Ok(ResolvedValiditySource::Nodata)
    );
    assert_eq!(
        resolve_validity_source(false, &missing, false, &auto),
        Ok(ResolvedValiditySource::Full)
    );
    assert_eq!(
        resolve_validity_source(false, &plain, false, &auto),
        Ok(ResolvedValiditySource::Full)
    );
    let black = FootprintOptions { black_rgb_transparent: true, ..FootprintOptions::default() };
    assert_eq!(
        resolve_validity_source(false, &plain, false, &black),
        Ok(ResolvedValiditySource::BlackRgb)
    );
    assert_eq!(
        resolve_validity_source(false, &plain, false, &ask(ValiditySourceChoice::Mask)),
        Err(ValidityError::NoDatasetMask)
    );
    assert_eq!(
        resolve_validity_source(false, &plain, false, &ask(ValiditySourceChoice::Alpha)),
        Err(ValidityError::NoAlphaBand)
    );
    assert_eq!(
        resolve_validity_source(false, &plain, false, &ask(ValiditySourceChoice::Nodata)),
        Err(ValidityError::NoUsableNodata)
    );
    assert_eq!(
        resolve_validity_source(true, &alpha, true, &ask(ValiditySourceChoice::Full)),
        Ok(ResolvedValiditySource::Full)
    );
}

#[test]
fn validity_reads_need_what_they_read() {
    let plain = profile(3, vec![], None);
    let alpha = profile(4, vec![ExtraSample::AssociatedAlpha], None);
    assert_eq!(
        read_validity_tile(false, &plain, ResolvedValiditySource::DatasetMask, false),
        Err(ValidityReadError::MissingMask)
    );
    assert_eq!(
        read_validity_tile(false, &plain, ResolvedValiditySource::AssociatedAlpha, false),
        Err(ValidityReadError::MissingAlphaBand)
    );
    assert_eq!(
        read_validity_tile(false, &alpha, ResolvedValiditySource::AssociatedAlpha, false),
        Ok(ValidityRead::Alpha { band: 3, wide: false })
    );
    assert_eq!(
        read_validity_tile(false, &plain, ResolvedValiditySource::Nodata, false),
        Err(ValidityReadError::MissingNodata)
    );
    assert_eq!(
        read_validity_tile(false, &plain, ResolvedValiditySource::Nodata, true),
        Ok(ValidityRead::Samples(NodataKind::U8))
    );
}

fn offers() -> GeorefOffers {
    GeorefOffers {
        file_transform: false,
        profile_affine: false,
        profile_matrix: false,
        file_matrix: false,
        anchored_scale: false,
        rpc: false,
        grid: false,
        spline: false,
        fitted: false,
    }
}

#[test]
fn transforms_go_before_coefficients_and_tie_points() {
    let all = GeorefOffers { rpc: true, grid: true, profile_matrix: true, ..offers() };
    assert_eq!(
        resolve_footprint_georef(&all),
        (GeorefOrigin::ProfileMatrix, FootprintGeorefKind::Affine)
    );
    let coefficients = GeorefOffers { rpc: true, grid: true, ..offers() };
    assert_eq!(
        resolve_footprint_georef(&coefficients),
        (GeorefOrigin::Rpc, FootprintGeorefKind::Rpc)
    );
    assert_eq!(
        resolve_footprint_georef_profile(&coefficients),
        (GeorefOrigin::Grid, FootprintGeorefKind::GcpGrid)
    );
    let points = GeorefOffers { spline: true, fitted: true, ..offers() };
    assert_eq!(resolve_footprint_georef(&points).1.label(), "gcp_tps");
    let fitted = GeorefOffers { fitted: true, ..offers() };
    assert_eq!(resolve_footprint_georef(&fitted).1.label(), "gcp_affine");
    assert_eq!(resolve_footprint_georef(&offers()).1.label(), "pixel");
}

#[test]
fn windows_move_transforms_or_pixels() {
    let window = Some(WriteWindow { col_off: 5, row_off: 7, width: 1, height: 1 });
    assert_eq!(
        window_shift(FootprintGeorefKind::GcpAffine, window),
        WindowShift::Transform { col_off: 5, row_off: 7 }
    );
    assert_eq!(
        window_shift(FootprintGeorefKind::Rpc, window),
        WindowShift::Pixels { col_off: 5, row_off: 7 }
    );
    assert_eq!(
        window_shift(FootprintGeorefKind::Affine, None),
        WindowShift::Pixels { col_off: 0, row_off: 0 }
    );
}

fn ring(points: &[&str]) -> Vec<String> {
    points.iter().map(|point| point.to_string()).collect()
}

#[test]
fn rings_are_written_as_text() {
    let one = vec![ring(&["0 0", "1 0", "1 1", "0 0"])];
    assert_eq!(rings_to_wkt(&one), "POLYGON((0 0, 1 0, 1 1, 0 0))");
    let two = vec![ring(&["0 0", "1 0"]), ring(&["5 5"])];
    assert_eq!(rings_to_wkt(&two), "MULTIPOLYGON(((0 0, 1 0)), ((5 5)))");
    assert_eq!(rings_to_flat_coords(&two), "0 0 1 0 5 5");
    assert_eq!(rings_to_wkt(&vec![]), "POLYGON EMPTY");
    assert_eq!(rings_to_flat_coords(&vec![]), "");
}

#[test]
fn a_footprint_reports_what_it_was_made_from() {
    let rings = vec![ring(&["0 0", "1 0", "1 1", "0 0"]), ring(&[])];
    let result = finish_footprint(
        "{}".to_string(),
        &rings,
        ResolvedValiditySource::BlackRgb,
        FootprintGeorefKind::GcpGrid,
        FootprintOutputFormat::GeoJson,
    );
    assert_eq!(result.body, "{}");
    assert_eq!(result.geojson, "{}");
    assert_eq!(result.validity_source, "black_rgb");
    assert_eq!(result.georef_source, "gcp_grid");
    assert_eq!(result.ring_count, 2);
    assert_eq!(result.vertex_count, 3);
    let flat = finish_footprint(
        "{}".to_string(),
        &rings,
        ResolvedValiditySource::Full,
        FootprintGeorefKind::Pixel,
        FootprintOutputFormat::WktFlat,
    );
    assert_eq!(flat.body, "0 0 1 0 1 1 0 0");
    assert_eq!(footprint_crs(FootprintGeorefKind::Pixel, Some(7)), ("pixel", Some(7)));
    assert_eq!(footprint_crs(FootprintGeorefKind::Rpc, Some(7)), ("EPSG:4326", Some(4326)));
}
