//! The source raster as plain values: what its directories say and how its samples
//! are laid out.
use crate::cog::options::CogOutputOptions;
use crate::cog::options::predictor_for;
use crate::crop::WriteWindow;
use crate::tiff::{
    compression_from_code, compression_of_code, photometric_from_code, photometric_of_code,
    planar_from_code, planar_of_code, predictor_from_code, predictor_of_code, sample_format_from_code, sample_format_of_code,
    Compression, ExtraSample, PhotometricInterpretation, PlanarConfiguration, Predictor,
    SampleFormat,
};
use vstd::prelude::*;

verus! {

/// What an image file directory says. Tag values are the codes in the file; tags with
/// several values are given by the first.
#[derive(Debug, Clone, Copy)]
pub struct IfdInfo {
    pub width: u32,
    pub height: u32,
    pub tile_width: Option<u32>,
    pub tile_height: Option<u32>,
    pub tiled: bool,
    pub rows_per_strip: u32,
    pub samples_per_pixel: u16,
    pub bits_per_sample: Option<u16>,
    pub compression: u16,
    pub predictor: u16,
    pub planar_configuration: u16,
    pub sample_format: Option<u16>,
    pub photometric: Option<u16>,
    pub new_subfile_type: Option<u64>,
    pub subfile_type: Option<u16>,
}

/// A source file: its directories, which of them holds the full-size image, and the
/// directories of the overviews, from the largest on.
#[derive(Debug)]
pub struct SourceInfo {
    pub ifds: Vec<IfdInfo>,
    pub base_ifd: usize,
    pub overviews: Vec<IfdInfo>,
    pub band_count: u32,
}

impl SourceInfo {
    /// The full-size image is one of the directories.
    pub open spec fn well_formed(&self) -> bool {
        self.base_ifd < self.ifds@.len()
    }

    /// The directory of the full-size image.
    pub open spec fn base(&self) -> IfdInfo {
        self.ifds@[self.base_ifd as int]
    }
}

/// How samples are stored.
#[derive(Debug, Clone, Copy, PartialEq, Eq, Structural)]
pub struct SampleLayout {
    pub bits_per_sample: u16,
    pub sample_format: SampleFormat,
}

/// Size, bands and sample layout of the raster that is written.
#[derive(Debug)]
pub struct RasterProfile {
    pub width: u32,
    pub height: u32,
    pub bands: u32,
    pub sample: SampleLayout,
    pub photometric: PhotometricInterpretation,
    pub planar_configuration: PlanarConfiguration,
    pub extra_samples: Vec<ExtraSample>,
    pub nodata: Option<String>,
}

/// What the bands of a directory mean; a directory that does not say has black for its
/// least value.
pub open spec fn photometric_in(ifd: IfdInfo) -> Option<PhotometricInterpretation> {
    photometric_of_code(
        match ifd.photometric {
            Some(code) => code,
            None => 1,
        },
    )
}

/// What the bands of a directory mean.
pub fn ifd_photometric(ifd: &IfdInfo) -> (photometric: Option<PhotometricInterpretation>)
    ensures
        photometric == photometric_in(*ifd),
{
    let code: u16 = match ifd.photometric {
        Some(code) => code,
        None => 1,
    };
    photometric_from_code(code)
}

/// The compression of a directory; an unknown code counts as none.
pub open spec fn compression_in(ifd: IfdInfo) -> Compression {
    match compression_of_code(ifd.compression) {
        Some(compression) => compression,
        None => Compression::Uncompressed,
    }
}

/// The planar configuration of a directory; an unknown code counts as chunky.
pub open spec fn planar_in(ifd: IfdInfo) -> PlanarConfiguration {
    match planar_of_code(ifd.planar_configuration) {
        Some(planar) => planar,
        None => PlanarConfiguration::Chunky,
    }
}

/// The predictor of a directory; an unknown code counts as none.
pub open spec fn predictor_in(ifd: IfdInfo) -> Predictor {
    match predictor_of_code(ifd.predictor) {
        Some(predictor) => predictor,
        None => Predictor::Identity,
    }
}

/// The sample format of a directory, unsigned where the tag is missing; none for an
/// unknown code.
pub open spec fn sample_format_in(ifd: IfdInfo) -> Option<SampleFormat> {
    sample_format_of_code(
        match ifd.sample_format {
            Some(code) => code,
            None => 1,
        },
    )
}

/// The compression of a directory.
pub fn input_compression(ifd: &IfdInfo) -> (compression: Compression)
    ensures
        compression == compression_in(*ifd),
{
    match compression_from_code(ifd.compression) {
        Some(compression) => compression,
        None => Compression::Uncompressed,
    }
}

/// The planar configuration of a directory.
pub fn ifd_planar(ifd: &IfdInfo) -> (planar: PlanarConfiguration)
    ensures
        planar == planar_in(*ifd),
{
    match planar_from_code(ifd.planar_configuration) {
        Some(planar) => planar,
        None => PlanarConfiguration::Chunky,
    }
}

/// The predictor of a directory.
pub fn ifd_predictor(ifd: &IfdInfo) -> (predictor: Predictor)
    ensures
        predictor == predictor_in(*ifd),
{
    match predictor_from_code(ifd.predictor) {
        Some(predictor) => predictor,
        None => Predictor::Identity,
    }
}

/// A sample format code that is not known.
#[derive(Debug, Clone, Copy, PartialEq, Eq, Structural)]
pub struct UnsupportedSampleFormat {
    pub code: u16,
}

/// The sample format of a directory.
pub fn ifd_sample_format(ifd: &IfdInfo) -> (result: Result<SampleFormat, UnsupportedSampleFormat>)
    ensures
        match sample_format_in(*ifd) {
            Some(format) => result == Ok::<SampleFormat, UnsupportedSampleFormat>(format),
            None => result matches Err(error) && ifd.sample_format == Some(error.code),
        },
{
    let code: u16 = match ifd.sample_format {
        Some(code) => code,
        None => 1,
    };
    match sample_format_from_code(code) {
        Some(format) => Ok(format),
        None => Err(UnsupportedSampleFormat { code }),
    }
}

/// Whether a directory has square tiles of the given size.
pub open spec fn has_tiles_of(ifd: IfdInfo, size: u32) -> bool {
    ifd.tile_width == Some(size) && ifd.tile_height == Some(size)
}

/// Whether a directory has square tiles of the given size.
pub fn tiles_are(ifd: &IfdInfo, size: u32) -> (are: bool)
    ensures
        are == has_tiles_of(*ifd, size),
{
    match (ifd.tile_width, ifd.tile_height) {
        (Some(w), Some(h)) => w == size && h == size,
        _ => false,
    }
}

/// Whether the blocks of a directory are compressed as the output is.
pub fn compression_matches_ifd(ifd: &IfdInfo, opts: &CogOutputOptions) -> (matches: bool)
    ensures
        matches == (opts.compression.scheme() == compression_in(*ifd)),
{
    opts.compression.to_compression() == input_compression(ifd)
}

/// Whether the samples of a directory are prepared for compression as the output's are.
pub fn predictor_matches_ifd(
    ifd: &IfdInfo,
    opts: &CogOutputOptions,
    sample_format: SampleFormat,
) -> (matches: bool)
    ensures
        matches == (predictor_in(*ifd) == predictor_for(opts.compression, sample_format)),
{
    ifd_predictor(ifd) == opts.encode_predictor_for(sample_format)
}

/// Whether the compressed blocks of a directory can be copied to the output: same
/// compression, same predictor, and tiles of the output's size.
pub fn layer_blocks_copyable(
    ifd: &IfdInfo,
    opts: &CogOutputOptions,
    sample_format: SampleFormat,
) -> (copyable: bool)
    ensures
        copyable == {
            &&& opts.compression.scheme() == compression_in(*ifd)
            &&& predictor_in(*ifd) == predictor_for(opts.compression, sample_format)
            &&& has_tiles_of(*ifd, opts.blocksize)
        },
{
    if !compression_matches_ifd(ifd, opts) {
        return false;
    }
    if !predictor_matches_ifd(ifd, opts, sample_format) {
        return false;
    }
    tiles_are(ifd, opts.blocksize)
}

/// The colors of a directory with what else its pixels hold. Only a palette has a color
/// map, which is named here by its length.
#[derive(Debug)]
pub enum ColorModel {
    Grayscale { extra_samples: Vec<ExtraSample> },
    Rgb { extra_samples: Vec<ExtraSample> },
    Cmyk { extra_samples: Vec<ExtraSample> },
    CieLab { extra_samples: Vec<ExtraSample> },
    Palette { colors: usize, extra_samples: Vec<ExtraSample> },
    Separated { extra_samples: Vec<ExtraSample> },
    YCbCr { extra_samples: Vec<ExtraSample> },
    TransparencyMask,
}

/// The bands beyond the colors of a color model.
pub open spec fn extra_samples_of(model: ColorModel) -> Seq<ExtraSample> {
    match model {
        ColorModel::Grayscale { extra_samples } => extra_samples@,
        ColorModel::Rgb { extra_samples } => extra_samples@,
        ColorModel::Cmyk { extra_samples } => extra_samples@,
        ColorModel::CieLab { extra_samples } => extra_samples@,
        ColorModel::Palette { colors: _, extra_samples } => extra_samples@,
        ColorModel::Separated { extra_samples } => extra_samples@,
        ColorModel::YCbCr { extra_samples } => extra_samples@,
        ColorModel::TransparencyMask => Seq::empty(),
    }
}

/// The bands beyond the colors, and the length of the color map of a palette.
pub fn color_model_fields(model: ColorModel) -> (fields: (Vec<ExtraSample>, Option<usize>))
    ensures
        fields.0@ == extra_samples_of(model),
        fields.1 == (match model {
            ColorModel::Palette { colors, extra_samples: _ } => Some(colors),
            _ => None,
        }),
{
    match model {
        ColorModel::Grayscale { extra_samples } => (extra_samples, None),
        ColorModel::Rgb { extra_samples } => (extra_samples, None),
        ColorModel::Cmyk { extra_samples } => (extra_samples, None),
        ColorModel::CieLab { extra_samples } => (extra_samples, None),
        ColorModel::Palette { colors, extra_samples } => (extra_samples, Some(colors)),
        ColorModel::Separated { extra_samples } => (extra_samples, None),
        ColorModel::YCbCr { extra_samples } => (extra_samples, None),
        ColorModel::TransparencyMask => (Vec::new(), None),
    }
}

fn copy_extra_samples(samples: &Vec<ExtraSample>) -> (copy: Vec<ExtraSample>)
    ensures
        copy@ == samples@,
{
    let mut copy: Vec<ExtraSample> = Vec::new();
    let mut i: usize = 0;
    while i < samples.len()
        invariant
            i <= samples@.len(),
            copy@ == samples@.take(i as int),
        decreases samples@.len() - i,
    {
        copy.push(samples[i]);
        assert(copy@ =~= samples@.take(i + 1));
        i = i + 1;
    }
    assert(samples@.take(i as int) =~= samples@);
    copy
}

fn copy_nodata(nodata: &Option<String>) -> (copy: Option<String>)
    ensures
        copy is Some == nodata is Some,
        nodata matches Some(text) ==> copy->0@ == text@,
{
    match nodata {
        None => None,
        Some(text) => Some(text.clone()),
    }
}

/// Whether two values for missing pixels are the same text.
pub open spec fn same_nodata(a: Option<String>, b: Option<String>) -> bool {
    match (a, b) {
        (None, None) => true,
        (Some(a), Some(b)) => a@ == b@,
        _ => false,
    }
}

impl RasterProfile {
    /// The profile of the full-size image of a source. Values without a meaning count as
    /// unsigned samples, black as the least value, and bands stored together.
    pub fn from_geotiff(
        source: &SourceInfo,
        bits_per_sample: u16,
        sample_format: u16,
        model: ColorModel,
        nodata: Option<String>,
    ) -> (profile: RasterProfile)
        requires
            source.well_formed(),
        ensures
            profile.width == source.base().width,
            profile.height == source.base().height,
            profile.bands == source.band_count,
            profile.sample.bits_per_sample == bits_per_sample,
            profile.sample.sample_format == (match sample_format_of_code(sample_format) {
                Some(format) => format,
                None => SampleFormat::Uint,
            }),
            profile.photometric == (match photometric_in(source.base()) {
                Some(photometric) => photometric,
                None => PhotometricInterpretation::MinIsBlack,
            }),
            profile.planar_configuration == planar_in(source.base()),
            profile.extra_samples@ == extra_samples_of(model),
            profile.nodata == nodata,
    {
        let ifd = source.ifds[source.base_ifd];
        let format = match sample_format_from_code(sample_format) {
            Some(format) => format,
            None => SampleFormat::Uint,
        };
        let photometric = match ifd_photometric(&ifd) {
            Some(photometric) => photometric,
            None => PhotometricInterpretation::MinIsBlack,
        };
        RasterProfile {
            width: ifd.width,
            height: ifd.height,
            bands: source.band_count,
            sample: SampleLayout { bits_per_sample, sample_format: format },
            photometric,
            planar_configuration: ifd_planar(&ifd),
            extra_samples: color_model_fields(model).0,
            nodata,
        }
    }

    /// The profile of the part of a raster in a window, whose size is counted in 32 bits.
    pub fn with_window(&self, window: &WriteWindow) -> (profile: RasterProfile)
        ensures
            profile.width == window.width as u32,
            profile.height == window.height as u32,
            profile.bands == self.bands,
            profile.sample == self.sample,
            profile.photometric == self.photometric,
            profile.planar_configuration == self.planar_configuration,
            profile.extra_samples@ == self.extra_samples@,
            same_nodata(profile.nodata, self.nodata),
    {
        RasterProfile {
            width: #[verifier::truncate] (window.width as u32),
            height: #[verifier::truncate] (window.height as u32),
            bands: self.bands,
            sample: self.sample,
            photometric: self.photometric,
            planar_configuration: self.planar_configuration,
            extra_samples: copy_extra_samples(&self.extra_samples),
            nodata: copy_nodata(&self.nodata),
        }
    }

    /// The profile of a raster with some of the bands: three bands are colors, and no
    /// band is beyond them.
    pub fn with_band_subset(&self, bands: &[usize]) -> (profile: RasterProfile)
        ensures
            profile.width == self.width,
            profile.height == self.height,
            profile.bands == bands@.len() as u32,
            profile.sample == self.sample,
            profile.photometric == (if bands@.len() as u32 == 3 {
                PhotometricInterpretation::Rgb
            } else {
                self.photometric
            }),
            profile.planar_configuration == self.planar_configuration,
            profile.extra_samples@.len() == 0,
            same_nodata(profile.nodata, self.nodata),
    {
        let count: u32 = #[verifier::truncate] (bands.len() as u32);
        RasterProfile {
            width: self.width,
            height: self.height,
            bands: count,
            sample: self.sample,
            photometric: if count == 3 {
                PhotometricInterpretation::Rgb
            } else {
                self.photometric
            },
            planar_configuration: self.planar_configuration,
            extra_samples: Vec::new(),
            nodata: copy_nodata(&self.nodata),
        }
    }
}

/// What tells the place of a raster in the file that is written.
#[derive(Debug, Clone, Copy, PartialEq, Eq, Structural)]
pub enum GeorefTag {
    TransformationMatrix,
    Affine,
    ModelTiepoints,
    Absent,
}

/// Chooses what tells the place: a matrix goes before an affine transform, and that
/// before tie points.
pub fn apply_georef(matrix: bool, affine: bool, tiepoints: bool) -> (tag: GeorefTag)
    ensures
        tag == (if matrix {
            GeorefTag::TransformationMatrix
        } else if affine {
            GeorefTag::Affine
        } else if tiepoints {
            GeorefTag::ModelTiepoints
        } else {
            GeorefTag::Absent
        }),
{
    if matrix {
        GeorefTag::TransformationMatrix
    } else if affine {
        GeorefTag::Affine
    } else if tiepoints {
        GeorefTag::ModelTiepoints
    } else {
        GeorefTag::Absent
    }
}

/// The numbers of tie points one behind the other.
pub open spec fn flattened<T>(tiepoints: Seq<Vec<T>>) -> Seq<T>
    decreases tiepoints.len(),
{
    if tiepoints.len() == 0 {
        Seq::empty()
    } else {
        flattened(tiepoints.drop_last()) + tiepoints.last()@
    }
}

fn flatten<T: Copy>(tiepoints: &Vec<Vec<T>>) -> (numbers: Vec<T>)
    ensures
        numbers@ == flattened(tiepoints@),
{
    let mut numbers: Vec<T> = Vec::new();
    let mut i: usize = 0;
    while i < tiepoints.len()
        invariant
            i <= tiepoints@.len(),
            numbers@ == flattened(tiepoints@.take(i as int)),
        decreases tiepoints@.len() - i,
    {
        let ghost before = numbers@;
        let point = &tiepoints[i];
        let mut j: usize = 0;
        while j < point.len()
            invariant
                j <= point@.len(),
                numbers@ == before + point@.take(j as int),
            decreases point@.len() - j,
        {
            numbers.push(point[j]);
            assert(numbers@ =~= before + point@.take(j + 1));
            j = j + 1;
        }
        proof {
            assert(point@.take(j as int) =~= point@);
            assert(tiepoints@.take(i + 1).drop_last() =~= tiepoints@.take(i as int));
        }
        i = i + 1;
    }
    assert(tiepoints@.take(i as int) =~= tiepoints@);
    numbers
}

/// The tie points that a source is placed by: those of the file, unless a transform
/// places it.
pub fn read_model_tiepoints<T: Copy>(
    transform: bool,
    matrix: bool,
    tiepoints: &Vec<Vec<T>>,
) -> (numbers: Option<Vec<T>>)
    ensures
        match numbers {
            None => transform || matrix || tiepoints@.len() == 0,
            Some(numbers) => !transform && !matrix && tiepoints@.len() > 0 && numbers@
                == flattened(tiepoints@),
        },
{
    if transform || matrix || tiepoints.len() == 0 {
        None
    } else {
        Some(flatten(tiepoints))
    }
}

/// The tie points that a footprint is placed by: those of the profile, or of the file
/// where the profile has none.
pub fn collect_tiepoints<T: Copy>(profile: &Option<Vec<T>>, tiepoints: &Vec<Vec<T>>) -> (numbers:
    Vec<T>)
    ensures
        numbers@ == (match *profile {
            Some(own) if own@.len() > 0 => own@,
            _ => flattened(tiepoints@),
        }),
{
    if let Some(own) = profile {
        if own.len() > 0 {
            let mut copy: Vec<T> = Vec::new();
            let mut i: usize = 0;
            while i < own.len()
                invariant
                    i <= own@.len(),
                    copy@ == own@.take(i as int),
                decreases own@.len() - i,
            {
                copy.push(own[i]);
                assert(copy@ =~= own@.take(i + 1));
                i = i + 1;
            }
            assert(own@.take(i as int) =~= own@);
            return copy;
        }
    }
    flatten(tiepoints)
}

/// A directory without a color model is gray from black on, one without a sample format holds
/// unsigned numbers, and unknown codes stand for uncompressed blocks, for pixels that stand
/// together, and for samples as they are.
pub proof fn law_directories_have_defaults(ifd: IfdInfo)
    ensures
        ifd.photometric is None ==> photometric_in(ifd) == Some(
            PhotometricInterpretation::MinIsBlack,
        ),
        ifd.photometric matches Some(code) ==> photometric_in(ifd) == photometric_of_code(code),
        ifd.sample_format is None ==> sample_format_in(ifd) == Some(SampleFormat::Uint),
        ifd.sample_format matches Some(code) ==> sample_format_in(ifd) == sample_format_of_code(
            code,
        ),
        compression_in(ifd) is Uncompressed <==> compression_of_code(ifd.compression) is None
            || ifd.compression == 1,
        planar_in(ifd) is Planar <==> ifd.planar_configuration == 2,
        predictor_in(ifd) is Horizontal <==> ifd.predictor == 2,
        predictor_in(ifd) is Identity <==> ifd.predictor == 1 || predictor_of_code(
            ifd.predictor,
        ) is None,
{
}

/// Tie points are put together in their order: the numbers of each stand together, behind
/// those of the points before it.
pub proof fn law_tie_points_keep_their_order<T>(tiepoints: Seq<Vec<T>>, i: int, j: int)
    requires
        0 <= i < tiepoints.len(),
        0 <= j < tiepoints[i]@.len(),
    ensures
        ({
            let before = flattened(tiepoints.take(i)).len();
            &&& before + j < flattened(tiepoints).len()
            &&& flattened(tiepoints)[before + j] == tiepoints[i]@[j]
        }),
    decreases tiepoints.len(),
{
    let front = tiepoints.drop_last();
    if i < front.len() {
        law_tie_points_keep_their_order(front, i, j);
        assert(front.take(i) =~= tiepoints.take(i));
    } else {
        assert(tiepoints.take(i) =~= front);
    }
}

} // verus!
