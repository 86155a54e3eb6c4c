use gdal_alt_core::info::{
    format_text, geotiff_info, jp2_info, sample_format_name, FileTexts, OverviewInfo,
};
use gdal_alt_core::input::format::{
    detect, detect_source, is_jp2_extension, is_jp2_path, sniff_magic, InputFormat,
};
use gdal_alt_core::input::profile::{
    apply_georef, collect_tiepoints, color_model_fields, ifd_photometric, ifd_planar,
    ifd_predictor, ifd_sample_format, input_compression, read_model_tiepoints, ColorModel,
    GeorefTag, IfdInfo, RasterProfile, SourceInfo,
};
use gdal_alt_core::crop::WriteWindow;
use gdal_alt_core::jp2::profile::Jp2Raster;
use gdal_alt_core::tiff::{
    Compression, ExtraSample, PhotometricInterpretation, PlanarConfiguration, Predictor,
    SampleFormat,
};

fn ifd(compression: u16, photometric: Option<u16>) -> IfdInfo {
    IfdInfo {
        width: 1200,
        height: 800,
        tile_width: Some(512),
        tile_height: Some(256),
        tiled: true,
        rows_per_strip: 0,
        samples_per_pixel: 3,
        bits_per_sample: Some(16),
        compression,
        predictor: 2,
        planar_configuration: 1,
        sample_format: Some(2),
        photometric,
        new_subfile_type: None,
        subfile_type: None,
    }
}

fn source(base: IfdInfo) -> SourceInfo {
    let mut overview = base;
    overview.width = 600;
    overview.height = 400;
    overview.tile_width = None;
    SourceInfo { ifds: vec![base], base_ifd: 0, overviews: vec![overview], band_count: 3 }
}

fn texts() -> FileTexts {
    FileTexts {
        path: "/data/a.tif".to_string(),
        nodata: Some("-9999".to_string()),
        epsg: Some(4326),
        transform: Some("1.0000000000, 2.0000000000".to_string()),
        bounds: Some("0.000000, 1.000000".to_string()),
    }
}

#[test]
fn summaries_have_a_line_for_each_fact() {
    let info = geotiff_info(&source(ifd(5, Some(2))), 16, 2, texts());
    assert_eq!(info.block_size_text(), ", block 512x256");
    assert_eq!(
        format_text(&info),
        "Driver: GeoTIFF\n\
         Files: /data/a.tif\n\
         Size is 1200, 800\n\
         Band count: 3 (16-bit Int)\n\
         Photometric: Rgb\n\
         Layout: tiled, block 512x256\n\
         Compression: LZW\n\
         NoData: -9999\n\
         EPSG: 4326\n\
         Bounds: (0.000000, 1.000000)\n\
         GeoTransform: [1.0000000000, 2.0000000000]\n\
         Overviews: 1\n\
         \x20 0: 600x400\n"
    );
}

#[test]
fn values_without_a_name_are_shown_by_their_code() {
    let mut odd = source(ifd(999, Some(77)));
    odd.overviews.clear();
    let info = geotiff_info(&odd, 12, 40, texts());
    assert_eq!(info.compression, "code 999");
    assert_eq!(info.sample_format, "code 40");
    assert_eq!(info.photometric, "unknown");
    assert!(format_text(&info).ends_with("Overviews: none\n"));
    let silent = geotiff_info(&source(ifd(1, None)), 8, 1, texts());
    assert_eq!(silent.photometric, "MinIsBlack");
    assert_eq!(silent.compression, "None");
    assert_eq!(sample_format_name(SampleFormat::Float), "Float");
}

#[test]
fn summaries_of_jpeg2000_have_no_blocks() {
    let raster = Jp2Raster {
        width: 10,
        height: 20,
        bands: 1,
        bits_per_sample: 12,
        sample_format: SampleFormat::Uint,
        photometric: PhotometricInterpretation::MinIsBlack,
    };
    let info = jp2_info(&raster, texts());
    assert_eq!(info.driver, "JP2OpenJPEG");
    assert_eq!(info.block_size_text(), "");
    assert!(format_text(&info).contains("Band count: 1 (12-bit UInt)\n"));
    let overview = OverviewInfo { index: 3, width: 1, height: 2, block_x: Some(7), block_y: Some(8) };
    assert_eq!(overview.block_size_text(), ", block 7x8");
}

#[test]
fn formats_are_told_by_their_first_bytes() {
    let jp2 = [0, 0, 0, 12, b'j', b'P', b' ', b' ', 13, 10, 0x87, 10];
    assert_eq!(sniff_magic(&jp2), Some(InputFormat::Jp2));
    assert_eq!(sniff_magic(b"II*\0"), Some(InputFormat::GeoTiff));
    assert_eq!(sniff_magic(b"what"), None);
    assert_eq!(detect(b"what", Some("JP2")), InputFormat::Jp2);
    assert_eq!(detect(b"what", Some("tif")), InputFormat::GeoTiff);
    assert_eq!(detect(b"what", None), InputFormat::GeoTiff);
    assert!(is_jp2_extension(Some("j2k")));
    assert!(!is_jp2_extension(None));
    assert_eq!(detect_source("/a.jp2", b"", Some("jp2")), InputFormat::Jp2);
    assert!(is_jp2_path("/a.jp2", &jp2, None));
}

#[test]
fn directories_are_read_through_their_codes() {
    let base = ifd(50000, Some(6));
    assert_eq!(input_compression(&base), Compression::Zstd);
    assert_eq!(ifd_predictor(&base), Predictor::Horizontal);
    assert_eq!(ifd_planar(&base), PlanarConfiguration::Chunky);
    assert_eq!(ifd_sample_format(&base), Ok(SampleFormat::Int));
    assert_eq!(ifd_photometric(&base), Some(PhotometricInterpretation::YCbCr));
    let mut odd = base;
    odd.predictor = 34;
    odd.planar_configuration = 2;
    odd.sample_format = Some(4);
    assert_eq!(ifd_predictor(&odd), Predictor::Identity);
    assert_eq!(ifd_planar(&odd), PlanarConfiguration::Planar);
    assert_eq!(ifd_sample_format(&odd).unwrap_err().code, 4);
}

#[test]
fn profiles_follow_the_source_and_its_window() {
    let model = ColorModel::Rgb { extra_samples: vec![ExtraSample::Unspecified] };
    let profile =
        RasterProfile::from_geotiff(&source(ifd(1, None)), 16, 9, model, Some("0".to_string()));
    assert_eq!((profile.width, profile.height, profile.bands), (1200, 800, 3));
    assert_eq!(profile.sample.sample_format, SampleFormat::Uint);
    assert_eq!(profile.photometric, PhotometricInterpretation::MinIsBlack);
    assert_eq!(profile.extra_samples, vec![ExtraSample::Unspecified]);
    let window = WriteWindow { col_off: 1, row_off: 2, width: 30, height: 40 };
    let part = profile.with_window(&window);
    assert_eq!((part.width, part.height), (30, 40));
    assert_eq!(part.nodata, Some("0".to_string()));
    let subset = profile.with_band_subset(&[1, 2, 3]);
    assert_eq!(subset.photometric, PhotometricInterpretation::Rgb);
    assert!(subset.extra_samples.is_empty());
    assert_eq!(profile.with_band_subset(&[2]).photometric, PhotometricInterpretation::MinIsBlack);
}

#[test]
fn palettes_have_a_color_map() {
    let palette = ColorModel::Palette { colors: 256, extra_samples: vec![] };
    assert_eq!(color_model_fields(palette).1, Some(256));
    assert_eq!(color_model_fields(ColorModel::TransparencyMask).1, None);
}

#[test]
fn a_matrix_goes_before_a_transform_and_tie_points() {
    assert_eq!(apply_georef(true, true, true), GeorefTag::TransformationMatrix);
    assert_eq!(apply_georef(false, true, true), GeorefTag::Affine);
    assert_eq!(apply_georef(false, false, true), GeorefTag::ModelTiepoints);
    assert_eq!(apply_georef(false, false, false), GeorefTag::Absent);
}

#[test]
fn tie_points_are_taken_from_the_profile_or_the_file() {
    let points = vec![vec![1.0, 2.0], vec![3.0]];
    assert_eq!(read_model_tiepoints(false, false, &points), Some(vec![1.0, 2.0, 3.0]));
    assert_eq!(read_model_tiepoints(true, false, &points), None);
    assert_eq!(read_model_tiepoints::<f64>(false, false, &vec![]), None);
    assert_eq!(collect_tiepoints(&Some(vec![9.0]), &points), vec![9.0]);
    assert_eq!(collect_tiepoints(&Some(vec![]), &points), vec![1.0, 2.0, 3.0]);
    assert_eq!(collect_tiepoints(&None, &points), vec![1.0, 2.0, 3.0]);
}
