use gdal_alt_core::cog::options::{
    CogOutputOptions, CompressionChoice, LercAdditionalCompressionChoice, ResamplingChoice,
};
use gdal_alt_core::crop::WriteWindow;
use gdal_alt_core::footprint::mask_jp2::{
    build_validity_mask_jp2, decode_nodata_tile, validity_of_components, Jp2ValidityError,
};
use gdal_alt_core::footprint::options::{NodataValue, ResolvedValiditySource};
use gdal_alt_core::input::dimensions::{input_dimensions, OpenedRaster};
use gdal_alt_core::input::profile::{RasterProfile, SampleLayout};
use gdal_alt_core::jp2::decode::{
    openjpeg_reduce, overview_planes, planes_from_components, region_planes, regions,
    regions_in_rect, Component, ImageHeader, Jp2Error, Planes, Region,
};
use gdal_alt_core::jp2::profile::{header_from_bytes, raster_from_header, Jp2Raster};
use gdal_alt_core::jp2::stream::{
    jp2_sample_kind, output_geometry, overview_reduction, pack_planes, pack_region,
    plan_conversion, TileGrid,
};
use gdal_alt_core::tiff::{
    PhotometricInterpretation, PlanarConfiguration, SampleFormat, SampleKind,
};

/// A codestream with one level of decomposition whose packets are all empty: every sample
/// lies in the middle of its range.
fn gray_codestream(width: u32, height: u32, components: u16) -> Vec<u8> {
    let mut out = vec![0xff, 0x4f, 0xff, 0x51];
    out.extend((38 + 3 * components).to_be_bytes());
    out.extend(0u16.to_be_bytes());
    for value in [width, height, 0, 0, width, height, 0, 0] {
        out.extend(value.to_be_bytes());
    }
    out.extend(components.to_be_bytes());
    for _ in 0..components {
        out.extend([7, 1, 1]);
    }
    // Coding style: one layer, one level, code blocks of 64 by 64, the reversible filter.
    out.extend([0xff, 0x52, 0, 12, 0, 0, 0, 1, 0, 1, 4, 4, 0, 1]);
    // No quantization, two guard bits.
    out.extend([0xff, 0x5c, 0, 7, 0x40, 0x40, 0x48, 0x48, 0x50]);
    let packets = 2 * components as usize;
    out.extend([0xff, 0x90, 0, 10, 0, 0]);
    out.extend((14 + packets as u32).to_be_bytes());
    out.extend([0, 1]);
    out.extend([0xff, 0x93]);
    out.extend(vec![0u8; packets]);
    out.extend([0xff, 0xd9]);
    out
}

fn profile(bands: u32) -> RasterProfile {
    RasterProfile {
        width: 8,
        height: 6,
        bands,
        sample: SampleLayout { bits_per_sample: 8, sample_format: SampleFormat::Uint },
        photometric: PhotometricInterpretation::Rgb,
        planar_configuration: PlanarConfiguration::Planar,
        extra_samples: vec![],
        nodata: None,
    }
}

#[test]
fn headers_tell_size_and_samples() {
    let raster = Jp2Raster::open(&gray_codestream(8, 6, 3)).unwrap();
    assert_eq!((raster.width, raster.height, raster.bands), (8, 6, 3));
    assert_eq!(raster.bits_per_sample, 8);
    assert_eq!(raster.sample_format, SampleFormat::Uint);
    assert_eq!(raster.photometric, PhotometricInterpretation::Rgb);
    assert_eq!(header_from_bytes(b"no image at all"), Err(Jp2Error::UnreadableHeader));
    let data = gray_codestream(8, 6, 3);
    assert_eq!(input_dimensions(&OpenedRaster::Jp2 { data: &data }), Ok((8, 6, 3)));
    assert_eq!(
        input_dimensions(&OpenedRaster::GeoTiff { width: 2, height: 3, bands: 1 }),
        Ok((2, 3, 1))
    );
}

#[test]
fn regions_of_an_image_are_decoded() {
    let data = gray_codestream(8, 6, 2);
    let region = Region { x0: 2, y0: 1, x1: 7, y1: 4 };
    let planes: Planes<u8> = region_planes(&data, &region, 8, Some(&[2])).unwrap();
    assert_eq!(planes.width, 5);
    assert_eq!(planes.planes, vec![vec![128u8; 15]]);
    let wide: Planes<u16> = region_planes(&data, &region, 8, None).unwrap();
    assert_eq!(wide.planes.len(), 2);
    assert!(matches!(
        region_planes::<u8>(&data, &region, 8, Some(&[3])),
        Err(Jp2Error::MissingComponent { band: 3 })
    ));
}

#[test]
fn overviews_are_decoded_at_half_size() {
    let data = gray_codestream(8, 6, 1);
    let image = overview_planes::<u8>(&data, 1, 8, None).unwrap();
    assert_eq!((image.width, image.height), (4, 3));
    assert_eq!(image.planes.planes, vec![vec![128u8; 12]]);
}

#[test]
fn the_valid_pixels_of_an_image_are_told_from_its_samples() {
    let data = gray_codestream(8, 6, 3);
    let raster = Jp2Raster::open(&data).unwrap();
    let mask = build_validity_mask_jp2(
        &data,
        &raster,
        &profile(3),
        ResolvedValiditySource::Nodata,
        Some(WriteWindow { col_off: 1, row_off: 1, width: 5, height: 3 }),
        Some(NodataValue::U8(128)),
        4,
    )
    .unwrap();
    assert_eq!((mask.width, mask.height), (5, 3));
    assert!(mask.none_valid());
    let colors = build_validity_mask_jp2(
        &data,
        &raster,
        &profile(3),
        ResolvedValiditySource::BlackRgb,
        None,
        None,
        4,
    )
    .unwrap();
    assert!(colors.all_valid());
    assert!(matches!(
        build_validity_mask_jp2(
            &data,
            &raster,
            &profile(3),
            ResolvedValiditySource::AssociatedAlpha,
            None,
            None,
            4,
        ),
        Err(Jp2ValidityError::MissingAlphaBand)
    ));
}

fn component(values: Vec<i32>, precision: u32) -> Component {
    Component { width: values.len() as u32, height: 1, precision, signed: false, data: values }
}

fn raster(bits_per_sample: u8) -> Jp2Raster {
    Jp2Raster {
        width: 2,
        height: 1,
        bands: 1,
        bits_per_sample,
        sample_format: SampleFormat::Uint,
        photometric: PhotometricInterpretation::MinIsBlack,
    }
}

#[test]
fn samples_of_a_tile_are_compared_with_the_missing_value() {
    let components = vec![component(vec![7, 9], 8)];
    assert_eq!(
        decode_nodata_tile(&components, &raster(8), NodataValue::U8(9), 1, 2),
        Ok(vec![1, 0])
    );
    assert_eq!(
        decode_nodata_tile(&components, &raster(8), NodataValue::U8(9), 1, 3),
        Err(Jp2ValidityError::Image(Jp2Error::SizeMismatch { expected: 3, found: 2 }))
    );
    assert_eq!(
        validity_of_components(
            &components,
            &raster(8),
            &profile(1),
            ResolvedValiditySource::Nodata,
            None,
            1,
            2,
        ),
        Err(Jp2ValidityError::MissingNodata)
    );
}

#[test]
fn samples_are_scaled_to_whole_bytes() {
    let four_bits = vec![component(vec![0, 15, 7], 4)];
    let planes: Planes<u8> = planes_from_components(&four_bits, 8, None).unwrap();
    assert_eq!(planes.planes[0], vec![0, 255, 119]);
    assert!(matches!(
        planes_from_components::<u8>(&vec![], 8, None),
        Err(Jp2Error::NoComponents)
    ));
}

#[test]
fn signed_samples_are_scaled_around_zero() {
    let signed = vec![Component {
        width: 3,
        height: 1,
        precision: 4,
        signed: true,
        data: vec![-8, 0, 7],
    }];
    let planes: Planes<u8> = planes_from_components(&signed, 8, None).unwrap();
    assert_eq!(planes.planes[0], vec![0, 128, 240]);
    for precision in [31, 32] {
        let wide = vec![Component { width: 1, height: 1, precision, signed: true, data: vec![0] }];
        let planes: Result<Planes<u8>, Jp2Error> = planes_from_components(&wide, 8, None);
        assert!(matches!(planes, Ok(planes) if planes.planes.len() == 1));
    }
}

#[test]
fn components_that_are_not_selected_are_not_looked_at() {
    let components = vec![component(vec![1, 2], 8), component(vec![3, 4], 31)];
    let first: Planes<u8> = planes_from_components(&components, 8, Some(&[1])).unwrap();
    assert_eq!(first.planes, vec![vec![1, 2]]);
    assert!(matches!(
        planes_from_components::<u8>(&components, 8, Some(&[2])),
        Err(Jp2Error::UnsupportedPrecision)
    ));
}

#[test]
fn components_have_to_agree() {
    let header = |components| ImageHeader { width: 4, height: 4, components };
    assert_eq!(raster_from_header(&header(vec![])), Err(Jp2Error::NoComponents));
    assert_eq!(
        raster_from_header(&header(vec![(8, false), (16, false)])),
        Err(Jp2Error::MixedBitDepth)
    );
    assert_eq!(
        raster_from_header(&header(vec![(8, false), (8, true)])),
        Err(Jp2Error::MixedSignedness)
    );
    let gray = raster_from_header(&header(vec![(16, false)])).unwrap();
    assert_eq!(jp2_sample_kind(&gray), Ok(SampleKind::U16));
    assert_eq!(gray.with_band_subset(&[]), Err(Jp2Error::NoBandSelected));
    assert_eq!(gray.with_band_subset(&[2]), Err(Jp2Error::BandOutOfRange { band: 2 }));
    assert_eq!(gray.with_band_subset(&[1]).unwrap().bands, 1);
}

#[test]
fn regions_cover_a_rectangle_once() {
    let list = regions(1500, 1100, 0, 0);
    assert_eq!(list.len(), 4);
    assert_eq!(list[3], Region { x0: 1024, y0: 1024, x1: 1500, y1: 1100 });
    let moved = regions_in_rect(10, 20, 5, 5);
    assert_eq!(moved, vec![Region { x0: 10, y0: 20, x1: 15, y1: 25 }]);
}

#[test]
fn reductions_are_powers_of_two_within_limits() {
    assert_eq!(openjpeg_reduce(8), 3);
    assert_eq!(openjpeg_reduce(6), 1);
    assert_eq!(openjpeg_reduce(1), 0);
    assert_eq!(openjpeg_reduce(1024), 4);
    let reduction = overview_reduction(100, 60, 6);
    assert_eq!((reduction.target_width, reduction.target_height), (16, 10));
    assert!(reduction.resample);
    assert!(!overview_reduction(100, 60, 4).resample);
}

fn opts() -> CogOutputOptions {
    CogOutputOptions {
        blocksize: 512,
        compression: CompressionChoice::Deflate,
        deflate_level: 6,
        resampling: ResamplingChoice::Average,
        overview_levels: None,
        no_overviews: false,
        mask_from_alpha: true,
        black_rgb_transparent: false,
        jpeg_quality: 75,
        lerc_additional_compression: LercAdditionalCompressionChoice::Uncompressed,
    }
}

#[test]
fn conversions_of_images_are_planned() {
    let plan = plan_conversion(&opts(), 1500, 1100, 0, 0);
    assert_eq!(plan.levels, vec![2, 4]);
    assert_eq!(plan.sizes, vec![(750, 550), (375, 275)]);
    assert_eq!(plan.regions.len(), 4);
    let window = Some(WriteWindow { col_off: 3, row_off: 4, width: 10, height: 20 });
    assert_eq!(output_geometry(&raster(8), window), (10, 20, 3, 4));
    assert_eq!(output_geometry(&raster(8), None), (2, 1, 0, 0));
}

#[test]
fn planes_are_packed_into_tiles() {
    let grid = TileGrid::new(3, 2, 0, 0, 2, 2);
    assert_eq!(grid.tiles_per_plane, 2);
    let planes = Planes { planes: vec![vec![1u8, 2, 3, 4, 5, 6]], width: 3 };
    let tiles = pack_planes(&planes, &grid).unwrap();
    assert_eq!(tiles.len(), 2);
    assert_eq!(tiles[0].samples, vec![1, 2, 4, 5]);
    assert_eq!(tiles[1].samples, vec![3, 0, 6, 0]);
    assert_eq!(tiles[1].block_index, 1);
    let region = Region { x0: 0, y0: 0, x1: 3, y1: 2 };
    let packed = pack_region(&planes, &region, &grid);
    assert_eq!(packed[1].samples, tiles[1].samples);
    let short = Planes { planes: vec![vec![1u8]], width: 3 };
    assert!(matches!(pack_planes(&short, &grid), Err(Jp2Error::PlaneShape)));
}
