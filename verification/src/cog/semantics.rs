//! What the bands of a raster say about transparency.
use crate::input::profile::RasterProfile;
use crate::tiff::{ExtraSample, PhotometricInterpretation, SampleFormat};
use vstd::prelude::*;

verus! {

/// Where the transparency of the output comes from.
#[derive(Debug, Clone, Copy, PartialEq, Eq, Structural)]
pub enum TransparencySource {
    Opaque,
    DatasetMask,
    AssociatedAlpha,
    BlackRgb,
}

/// Whether an extra band is an alpha band.
pub open spec fn is_alpha(sample: ExtraSample) -> bool {
    sample == ExtraSample::AssociatedAlpha || sample == ExtraSample::UnassociatedAlpha
}

/// The position of the first alpha band among the extra bands, from `from` on.
pub open spec fn first_alpha(samples: Seq<ExtraSample>, from: int) -> Option<int>
    decreases samples.len() - from,
{
    if from < 0 || from >= samples.len() {
        None
    } else if is_alpha(samples[from]) {
        Some(from)
    } else {
        first_alpha(samples, from + 1)
    }
}

/// How many bands hold color: three for RGB, one for gray and palette images, else all
/// that are not extra.
pub open spec fn color_bands(profile: RasterProfile) -> int {
    if profile.photometric == PhotometricInterpretation::Rgb {
        3
    } else if profile.photometric == PhotometricInterpretation::MinIsBlack || profile.photometric
        == PhotometricInterpretation::Palette {
        1
    } else if profile.bands >= profile.extra_samples@.len() as u32 {
        profile.bands - profile.extra_samples@.len() as u32
    } else {
        0
    }
}

/// The alpha band, counted from one: the first one behind the color bands.
pub open spec fn alpha_band(profile: RasterProfile) -> Option<int> {
    match first_alpha(profile.extra_samples@, 0) {
        None => None,
        Some(offset) => Some(color_bands(profile) + offset + 1),
    }
}

/// The bands are few enough to be counted.
pub open spec fn bands_countable(profile: RasterProfile) -> bool {
    color_bands(profile) + profile.extra_samples@.len() < usize::MAX
}

/// The alpha band, counted from one.
pub fn associated_alpha_band_index(profile: &RasterProfile) -> (band: Option<usize>)
    requires
        bands_countable(*profile),
    ensures
        match alpha_band(*profile) {
            Some(index) => band matches Some(found) && found == index && found >= 1,
            None => band is None,
        },
{
    let count: usize = profile.extra_samples.len();
    let mut offset: usize = 0;
    while offset < count
        invariant
            offset <= count,
            count == profile.extra_samples@.len(),
            first_alpha(profile.extra_samples@, 0) == first_alpha(
                profile.extra_samples@,
                offset as int,
            ),
            bands_countable(*profile),
        decreases count - offset,
    {
        match profile.extra_samples[offset] {
            ExtraSample::AssociatedAlpha | ExtraSample::UnassociatedAlpha => {
                let colors: usize = match profile.photometric {
                    PhotometricInterpretation::Rgb => 3,
                    PhotometricInterpretation::MinIsBlack | PhotometricInterpretation::Palette => 1,
                    _ => {
                        let extra: u32 = #[verifier::truncate]
                        (count as u32);
                        profile.bands.saturating_sub(extra) as usize
                    },
                };
                return Some(colors + offset + 1);
            },
            _ => {},
        }
        offset = offset + 1;
    }
    None
}

/// The alpha band stands behind the color bands: where the bands of a raster are its colors
/// and the extra bands behind them, it is the extra band that is marked as alpha, counted
/// from one, and all extra bands before it are of another kind. Gray and palette images have
/// one color, RGB images three.
pub proof fn law_alpha_is_an_extra_band(profile: RasterProfile, colors: int, band: int)
    requires
        alpha_band(profile) == Some(band),
        profile.extra_samples@.len() <= u32::MAX,
        profile.bands == colors + profile.extra_samples@.len(),
        profile.photometric == PhotometricInterpretation::Rgb ==> colors == 3,
        profile.photometric == PhotometricInterpretation::MinIsBlack || profile.photometric
            == PhotometricInterpretation::Palette ==> colors == 1,
        0 <= colors,
    ensures
        colors < band <= profile.bands,
        ({
            let marked = profile.extra_samples@[band - 1 - colors];
            marked == ExtraSample::AssociatedAlpha || marked == ExtraSample::UnassociatedAlpha
        }),
        forall|i: int|
            0 <= i < band - 1 - colors ==> (#[trigger] profile.extra_samples@[i])
                != ExtraSample::AssociatedAlpha && profile.extra_samples@[i]
                != ExtraSample::UnassociatedAlpha,
{
    lemma_first_alpha(profile.extra_samples@, 0);
}

/// A raster has an alpha band exactly if one of its extra bands is marked as alpha, whatever
/// its colors are.
pub proof fn law_alpha_is_found_where_marked(profile: RasterProfile)
    ensures
        alpha_band(profile) is Some <==> exists|i: int|
            0 <= i < profile.extra_samples@.len() && ((#[trigger] profile.extra_samples@[i])
                == ExtraSample::AssociatedAlpha || profile.extra_samples@[i]
                == ExtraSample::UnassociatedAlpha),
{
    lemma_first_alpha(profile.extra_samples@, 0);
}

/// Two rasters with the same extra bands, the second of which has other colors, have their
/// alpha bands as far apart as their colors are many.
pub proof fn law_alpha_moves_with_colors(gray: RasterProfile, color: RasterProfile)
    requires
        gray.photometric == PhotometricInterpretation::MinIsBlack || gray.photometric
            == PhotometricInterpretation::Palette,
        color.photometric == PhotometricInterpretation::Rgb,
        gray.extra_samples@ == color.extra_samples@,
        alpha_band(gray) is Some,
    ensures
        alpha_band(color) == Some(alpha_band(gray)->0 + 2),
        gray.extra_samples@.len() == 1 ==> alpha_band(gray) == Some(2int) && alpha_band(color)
            == Some(4int),
{
    lemma_first_alpha(gray.extra_samples@, 0);
}

proof fn lemma_first_alpha(samples: Seq<ExtraSample>, from: int)
    requires
        0 <= from,
    ensures
        match first_alpha(samples, from) {
            Some(at) => from <= at < samples.len() && is_alpha(samples[at]) && forall|i: int|
                from <= i < at ==> !is_alpha(#[trigger] samples[i]),
            None => forall|i: int| from <= i < samples.len() ==> !is_alpha(#[trigger] samples[i]),
        },
    decreases samples.len() - from,
{
    if from < samples.len() && !is_alpha(samples[from]) {
        lemma_first_alpha(samples, from + 1);
    }
}

/// Whether black pixels can stand for transparent ones: three 8-bit bands of color.
pub open spec fn black_candidate(profile: RasterProfile) -> bool {
    &&& profile.bands == 3
    &&& profile.photometric == PhotometricInterpretation::Rgb
    &&& profile.extra_samples@.len() == 0
    &&& profile.sample.bits_per_sample == 8
    &&& profile.sample.sample_format == SampleFormat::Uint
}

/// Whether black pixels can stand for transparent ones.
pub fn black_rgb_candidate(profile: &RasterProfile) -> (candidate: bool)
    ensures
        candidate == black_candidate(*profile),
{
    profile.bands == 3 && profile.photometric == PhotometricInterpretation::Rgb
        && profile.extra_samples.len() == 0 && profile.sample.bits_per_sample == 8
        && profile.sample.sample_format == SampleFormat::Uint
}

/// Where the transparency of the output comes from: a mask of the source, else an alpha
/// band, else black pixels; the last two only where they are asked for.
pub open spec fn transparency_of(
    has_masks: bool,
    profile: RasterProfile,
    mask_from_alpha: bool,
    black_rgb_transparent: bool,
) -> TransparencySource {
    if has_masks {
        TransparencySource::DatasetMask
    } else if mask_from_alpha && alpha_band(profile) is Some {
        TransparencySource::AssociatedAlpha
    } else if black_rgb_transparent && black_candidate(profile) {
        TransparencySource::BlackRgb
    } else {
        TransparencySource::Opaque
    }
}

/// Where the transparency of the output comes from.
pub fn detect_transparency(
    has_masks: bool,
    profile: &RasterProfile,
    mask_from_alpha: bool,
    black_rgb_transparent: bool,
) -> (source: TransparencySource)
    requires
        bands_countable(*profile),
    ensures
        source == transparency_of(has_masks, *profile, mask_from_alpha, black_rgb_transparent),
{
    if has_masks {
        return TransparencySource::DatasetMask;
    }
    if mask_from_alpha {
        if associated_alpha_band_index(profile).is_some() {
            return TransparencySource::AssociatedAlpha;
        }
    }
    if black_rgb_transparent && black_rgb_candidate(profile) {
        return TransparencySource::BlackRgb;
    }
    TransparencySource::Opaque
}

/// What makes pixels transparent: a mask of the source before all else, an alpha band before
/// black pixels, and nothing where none of them is there and may be used.
pub proof fn law_transparency_follows_precedence(
    has_masks: bool,
    profile: RasterProfile,
    mask_from_alpha: bool,
    black_rgb_transparent: bool,
)
    ensures
        ({
            let found = transparency_of(has_masks, profile, mask_from_alpha, black_rgb_transparent);
            let alpha = mask_from_alpha && alpha_band(profile) is Some;
            let black = black_rgb_transparent && profile.bands == 3 && profile.photometric
                == PhotometricInterpretation::Rgb && profile.extra_samples@.len() == 0
                && profile.sample.bits_per_sample == 8 && profile.sample.sample_format
                == SampleFormat::Uint;
            &&& found is DatasetMask <==> has_masks
            &&& found is AssociatedAlpha <==> !has_masks && alpha
            &&& found is BlackRgb <==> !has_masks && !alpha && black
            &&& found is Opaque <==> !has_masks && !alpha && !black
        }),
{
}

/// A mask is made from an alpha band only where the source has no mask, and from black
/// pixels only where it has neither a mask nor an alpha band; either only if asked for.
pub proof fn law_masks_are_made_where_none_is_given(
    has_masks: bool,
    profile: RasterProfile,
    mask_from_alpha: bool,
    black_rgb_transparent: bool,
)
    ensures
        transparency_of(has_masks, profile, mask_from_alpha, black_rgb_transparent)
            == TransparencySource::AssociatedAlpha ==> !has_masks && mask_from_alpha && alpha_band(
            profile,
        ) is Some,
        transparency_of(has_masks, profile, mask_from_alpha, black_rgb_transparent)
            == TransparencySource::BlackRgb ==> !has_masks && black_rgb_transparent && alpha_band(
            profile,
        ) is None,
{
}

/// In a raster of other colors with fewer bands than extra samples, extra samples count from
/// the first band on.
pub proof fn law_alpha_counts_from_the_first_band_without_colors(profile: RasterProfile, i: int)
    requires
        profile.photometric != PhotometricInterpretation::Rgb,
        profile.photometric != PhotometricInterpretation::MinIsBlack,
        profile.photometric != PhotometricInterpretation::Palette,
        profile.extra_samples@.len() <= u32::MAX,
        profile.bands <= profile.extra_samples@.len(),
        0 <= i < profile.extra_samples@.len(),
        profile.extra_samples@[i] == ExtraSample::AssociatedAlpha || profile.extra_samples@[i]
            == ExtraSample::UnassociatedAlpha,
    ensures
        alpha_band(profile) matches Some(band) && 1 <= band <= i + 1 && (
        profile.extra_samples@[band - 1] == ExtraSample::AssociatedAlpha
            || profile.extra_samples@[band - 1] == ExtraSample::UnassociatedAlpha),
{
    lemma_first_alpha(profile.extra_samples@, 0);
}

} // verus!
