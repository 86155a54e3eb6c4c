use gdal_alt_core::cog::mask::{
    discover_dataset_masks, has_reduced_resolution, is_transparency_mask_ifd,
    validate_dataset_masks, DatasetMasks, MaskIssue, ValidationLevel,
};
use gdal_alt_core::cog::mask_layers::{
    align_masks_to_rgb_layers, alpha_to_mask_array, alpha_u16_to_mask_array, binarize_mask_array,
    black_rgb_to_mask_array, collect_mask_remux_layers, interleave_rgb_and_mask_layers,
    mask_descriptor_from_ifd, pad_mask_tile, prepare_remux_layers, MaskDescriptor, MaskError,
    MaskOrigin, OutputLayer,
};
use gdal_alt_core::cog::options::{
    CogOutputOptions, CompressionChoice, LercAdditionalCompressionChoice, ResamplingChoice,
};
use gdal_alt_core::cog::semantics::{
    associated_alpha_band_index, black_rgb_candidate, detect_transparency, TransparencySource,
};
use gdal_alt_core::encode::chain::{encode_with_streaming_masks, LayerRef};
use gdal_alt_core::input::profile::{IfdInfo, RasterProfile, SampleLayout, SourceInfo};
use gdal_alt_core::raster::{Grid2, Grid3};
use gdal_alt_core::spool::CompressedBlock;
use gdal_alt_core::tiff::{
    Compression, ExtraSample, PhotometricInterpretation, PlanarConfiguration, SampleFormat,
};

fn image(width: u32, height: u32) -> IfdInfo {
    IfdInfo {
        width,
        height,
        tile_width: Some(512),
        tile_height: Some(512),
        tiled: true,
        rows_per_strip: 0,
        samples_per_pixel: 3,
        bits_per_sample: Some(8),
        compression: 8,
        predictor: 1,
        planar_configuration: 1,
        sample_format: Some(1),
        photometric: Some(2),
        new_subfile_type: None,
        subfile_type: None,
    }
}

fn mask(width: u32, height: u32, reduced: bool) -> IfdInfo {
    let mut ifd = image(width, height);
    ifd.samples_per_pixel = 1;
    ifd.photometric = Some(4);
    ifd.new_subfile_type = Some(if reduced { 5 } else { 4 });
    ifd
}

fn masked() -> SourceInfo {
    SourceInfo {
        ifds: vec![
            image(1000, 800),
            image(500, 400),
            image(250, 200),
            mask(1000, 800, false),
            mask(250, 200, true),
            mask(500, 400, true),
        ],
        base_ifd: 0,
        overviews: vec![image(500, 400), image(250, 200)],
        band_count: 3,
    }
}

fn profile(bands: u32, extra_samples: Vec<ExtraSample>) -> RasterProfile {
    RasterProfile {
        width: 1000,
        height: 800,
        bands,
        sample: SampleLayout { bits_per_sample: 8, sample_format: SampleFormat::Uint },
        photometric: PhotometricInterpretation::Rgb,
        planar_configuration: PlanarConfiguration::Chunky,
        extra_samples,
        nodata: None,
    }
}

fn opts(black_rgb_transparent: bool) -> CogOutputOptions {
    CogOutputOptions {
        blocksize: 512,
        compression: CompressionChoice::Deflate,
        deflate_level: 6,
        resampling: ResamplingChoice::Nearest,
        overview_levels: None,
        no_overviews: false,
        mask_from_alpha: true,
        black_rgb_transparent,
        jpeg_quality: 75,
        lerc_additional_compression: LercAdditionalCompressionChoice::Uncompressed,
    }
}

#[test]
fn masks_are_found_and_matched_by_size() {
    let masks = discover_dataset_masks(&masked()).unwrap();
    assert_eq!(masks.base_ifd_index, 3);
    assert_eq!(masks.overview_ifd_indices, vec![5, 4]);
    assert_eq!(collect_mask_remux_layers(&masks), vec![3, 5, 4]);
    let mut issues = Vec::new();
    validate_dataset_masks(&masked(), &mut issues);
    assert!(issues.is_empty());
}

#[test]
fn masks_are_told_by_flags_or_colors() {
    assert!(is_transparency_mask_ifd(&mask(8, 8, false)));
    assert!(!is_transparency_mask_ifd(&image(8, 8)));
    let mut flagged = image(8, 8);
    flagged.new_subfile_type = Some(4);
    assert!(is_transparency_mask_ifd(&flagged));
    assert!(has_reduced_resolution(&mask(8, 8, true)));
    assert!(!has_reduced_resolution(&mask(8, 8, false)));
}

#[test]
fn issues_of_masks_are_listed() {
    let mut source = masked();
    source.ifds.remove(5);
    source.ifds.push(mask(1000, 800, false));
    source.ifds.last_mut().unwrap().tiled = false;
    let mut issues = Vec::new();
    validate_dataset_masks(&source, &mut issues);
    assert_eq!(
        issues,
        vec![
            MaskIssue::MultipleFullMasks,
            MaskIssue::NotTiled,
            MaskIssue::OverviewCountMismatch { masks: 1, overviews: 2 },
            MaskIssue::OverviewUnmatched { overview: 0, width: 500, height: 400 },
        ]
    );
    assert_eq!(issues[0].level(), ValidationLevel::Error);
    assert_eq!(issues[2].level(), ValidationLevel::Warning);
    assert!(discover_dataset_masks(&source).is_none());
    source.ifds.truncate(3);
    issues.clear();
    validate_dataset_masks(&source, &mut issues);
    assert!(issues.is_empty());
}

#[test]
fn mask_descriptors_come_from_directories() {
    let described = mask_descriptor_from_ifd(&masked(), 5, true).unwrap();
    assert_eq!((described.width, described.height), (500, 400));
    assert_eq!(described.compression, Compression::Deflate);
    assert!(described.overview);
    assert_eq!(
        mask_descriptor_from_ifd(&masked(), 9, false),
        Err(MaskError::MissingIfd { index: 9 })
    );
    let mut strips = masked();
    strips.ifds[3].tile_width = None;
    strips.ifds[3].tile_height = None;
    strips.ifds[3].tiled = false;
    assert_eq!(
        mask_descriptor_from_ifd(&strips, 3, false),
        Err(MaskError::NotTiled { index: 3 })
    );
}

fn layer(value: u8) -> Vec<CompressedBlock> {
    vec![CompressedBlock { payload: vec![value], sparse: false }]
}

fn descriptor(width: u32, overview: bool) -> MaskDescriptor {
    MaskDescriptor {
        width,
        height: width,
        tile_width: 512,
        tile_height: 512,
        bits_per_sample: 8,
        compression: Compression::Deflate,
        overview,
    }
}

#[test]
fn masks_follow_their_images() {
    let layers = interleave_rgb_and_mask_layers(
        vec![layer(1), layer(2)],
        vec![layer(11), layer(12)],
        vec![descriptor(1000, false), descriptor(500, true)],
    )
    .unwrap();
    assert_eq!(layers.len(), 4);
    let names: Vec<u8> = layers
        .iter()
        .map(|layer| match layer {
            OutputLayer::Rgb(blocks) => blocks[0].payload[0],
            OutputLayer::Mask { descriptor: _, blocks } => blocks[0].payload[0],
        })
        .collect();
    assert_eq!(names, vec![1, 11, 2, 12]);
    let order = encode_with_streaming_masks(2, 2);
    assert_eq!(
        order,
        vec![LayerRef::Rgb(0), LayerRef::Mask(0), LayerRef::Rgb(1), LayerRef::Mask(1)]
    );
}

#[test]
fn layers_and_masks_have_to_match() {
    assert_eq!(
        interleave_rgb_and_mask_layers(vec![layer(1)], vec![layer(11)], vec![]).unwrap_err(),
        MaskError::DescriptorMismatch
    );
    assert_eq!(
        interleave_rgb_and_mask_layers(vec![], vec![], vec![]).unwrap_err(),
        MaskError::NoLayers
    );
    assert_eq!(
        interleave_rgb_and_mask_layers(
            vec![layer(1)],
            vec![layer(11), layer(12)],
            vec![descriptor(1000, false), descriptor(500, true)],
        )
        .unwrap_err(),
        MaskError::UnexpectedMaskCount
    );
    assert_eq!(
        align_masks_to_rgb_layers(vec![layer(1)], vec![descriptor(8, false)], &[(8, 8), (4, 4)])
            .unwrap_err(),
        MaskError::TooFewMasks { found: 1, needed: 2 }
    );
    let (kept, described) = align_masks_to_rgb_layers(
        vec![layer(1), layer(2)],
        vec![descriptor(8, false), descriptor(4, true)],
        &[(8, 8)],
    )
    .unwrap();
    assert_eq!(kept.len(), 1);
    assert_eq!(described.len(), 1);
}

#[test]
fn masks_of_the_sizes_of_the_layers_are_kept() {
    let masks = || vec![layer(1), layer(2), layer(3)];
    let described = || vec![descriptor(8, false), descriptor(4, true), descriptor(2, true)];
    let first_byte = |layers: &Vec<Vec<CompressedBlock>>| -> Vec<u8> {
        layers.iter().map(|blocks| blocks[0].payload[0]).collect()
    };
    let size = |side: u32| {
        let like = descriptor(side, true);
        (like.width, like.height)
    };
    let (kept, sizes) =
        align_masks_to_rgb_layers(masks(), described(), &[size(8), size(2)]).unwrap();
    assert_eq!(first_byte(&kept), vec![1, 3]);
    assert_eq!(sizes, vec![descriptor(8, false), descriptor(2, true)]);
    let (kept, _) = align_masks_to_rgb_layers(masks(), described(), &[size(8), size(3)]).unwrap();
    assert_eq!(first_byte(&kept), vec![1, 2]);
    let (kept, _) =
        align_masks_to_rgb_layers(masks(), described(), &[size(8), size(5), size(2)]).unwrap();
    assert_eq!(first_byte(&kept), vec![1, 2, 3]);
}

#[test]
fn transparency_comes_from_masks_alpha_or_black() {
    let plain = profile(3, vec![]);
    let alpha = profile(4, vec![ExtraSample::AssociatedAlpha]);
    assert_eq!(associated_alpha_band_index(&alpha), Some(4));
    assert_eq!(associated_alpha_band_index(&plain), None);
    assert!(black_rgb_candidate(&plain));
    assert_eq!(
        detect_transparency(true, &plain, true, true),
        TransparencySource::DatasetMask
    );
    assert_eq!(
        detect_transparency(false, &alpha, true, true),
        TransparencySource::AssociatedAlpha
    );
    assert_eq!(detect_transparency(false, &plain, true, true), TransparencySource::BlackRgb);
    assert_eq!(detect_transparency(false, &plain, true, false), TransparencySource::Opaque);
    let found = Some(DatasetMasks { base_ifd_index: 3, overview_ifd_indices: vec![] });
    assert_eq!(prepare_remux_layers(&found, &plain, false, &opts(false)), MaskOrigin::Copied);
    assert_eq!(prepare_remux_layers(&found, &plain, true, &opts(false)), MaskOrigin::Cropped);
    assert_eq!(
        prepare_remux_layers(&None, &plain, false, &opts(true)),
        MaskOrigin::Synthesized(TransparencySource::BlackRgb)
    );
    assert_eq!(prepare_remux_layers(&None, &plain, false, &opts(false)), MaskOrigin::Absent);
}

#[test]
fn mask_samples_are_zero_or_full() {
    let values = Grid2 { rows: 1, cols: 3, samples: vec![0u8, 1, 255] };
    assert_eq!(binarize_mask_array(&values), vec![0, 255, 255]);
    assert_eq!(alpha_to_mask_array(&values), vec![0, 255, 255]);
    let wide = Grid2 { rows: 1, cols: 2, samples: vec![0u16, 256] };
    assert_eq!(alpha_u16_to_mask_array(&wide), vec![0, 255]);
    let colors = Grid3 { rows: 1, cols: 2, bands: 3, samples: vec![0u8, 0, 0, 0, 0, 1] };
    assert_eq!(black_rgb_to_mask_array(&colors), vec![0, 255]);
    assert_eq!(
        pad_mask_tile(&vec![1, 2, 3, 4], 2, 2, 3),
        vec![1, 2, 0, 3, 4, 0, 0, 0, 0]
    );
}
