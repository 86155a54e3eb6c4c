//! Which pixels of a raster count as valid, and how that is decided.
use crate::cog::semantics::{
    alpha_band, associated_alpha_band_index, bands_countable, black_candidate, black_rgb_candidate,
};
use crate::input::profile::RasterProfile;
use crate::tiff::{PhotometricInterpretation, SampleFormat};
use vstd::prelude::*;

verus! {

/// What is asked for to tell valid pixels.
#[derive(Debug, Clone, Copy, PartialEq, Eq, Structural)]
pub enum ValiditySourceChoice {
    Auto,
    Mask,
    Alpha,
    Nodata,
    Full,
}

/// What tells valid pixels.
#[derive(Debug, Clone, Copy, PartialEq, Eq, Structural)]
pub enum ResolvedValiditySource {
    DatasetMask,
    AssociatedAlpha,
    Nodata,
    BlackRgb,
    Full,
}

/// The name of what tells valid pixels.
pub open spec fn source_label(source: ResolvedValiditySource) -> Seq<char> {
    match source {
        ResolvedValiditySource::DatasetMask => "mask"@,
        ResolvedValiditySource::AssociatedAlpha => "alpha"@,
        ResolvedValiditySource::Nodata => "nodata"@,
        ResolvedValiditySource::BlackRgb => "black_rgb"@,
        ResolvedValiditySource::Full => "full"@,
    }
}

impl ResolvedValiditySource {
    /// The name under which a footprint reports what told its valid pixels.
    pub fn label(self) -> (label: &'static str)
        ensures
            label@ == source_label(self),
    {
        match self {
            ResolvedValiditySource::DatasetMask => "mask",
            ResolvedValiditySource::AssociatedAlpha => "alpha",
            ResolvedValiditySource::Nodata => "nodata",
            ResolvedValiditySource::BlackRgb => "black_rgb",
            ResolvedValiditySource::Full => "full",
        }
    }
}

/// How a footprint is drawn.
#[derive(Debug, Clone, Copy, PartialEq, Eq, Structural)]
pub struct FootprintOptions {
    pub source: ValiditySourceChoice,
    /// Whether an alpha band may tell valid pixels without being asked for.
    pub mask_from_alpha: bool,
    /// Whether black pixels may count as invalid.
    pub black_rgb_transparent: bool,
    /// Size of the tiles that are read.
    pub tile_size: u32,
}

impl Default for FootprintOptions {
    fn default() -> (opts: FootprintOptions)
        ensures
            opts.source == ValiditySourceChoice::Auto,
            opts.mask_from_alpha,
            !opts.black_rgb_transparent,
            opts.tile_size == 512,
    {
        FootprintOptions {
            source: ValiditySourceChoice::Auto,
            mask_from_alpha: true,
            black_rgb_transparent: false,
            tile_size: 512,
        }
    }
}

/// Why valid pixels cannot be told as asked for.
#[derive(Debug, Clone, Copy, PartialEq, Eq, Structural)]
pub enum ValidityError {
    NoDatasetMask,
    NoAlphaBand,
    NoUsableNodata,
}

/// What tells valid pixels where nothing is asked for: a mask, else an alpha band, else a
/// value for missing data, else black, else every pixel is valid.
pub open spec fn automatic_source(
    has_masks: bool,
    profile: RasterProfile,
    nodata_usable: bool,
    opts: FootprintOptions,
) -> ResolvedValiditySource {
    if has_masks {
        ResolvedValiditySource::DatasetMask
    } else if opts.mask_from_alpha && alpha_band(profile) is Some {
        ResolvedValiditySource::AssociatedAlpha
    } else if profile.nodata is Some && nodata_usable {
        ResolvedValiditySource::Nodata
    } else if opts.black_rgb_transparent && black_candidate(profile) {
        ResolvedValiditySource::BlackRgb
    } else {
        ResolvedValiditySource::Full
    }
}

/// What tells valid pixels. What is asked for has to exist.
pub open spec fn validity_source(
    has_masks: bool,
    profile: RasterProfile,
    nodata_usable: bool,
    opts: FootprintOptions,
) -> Result<ResolvedValiditySource, ValidityError> {
    match opts.source {
        ValiditySourceChoice::Mask => if has_masks {
            Ok(ResolvedValiditySource::DatasetMask)
        } else {
            Err(ValidityError::NoDatasetMask)
        },
        ValiditySourceChoice::Alpha => if alpha_band(profile) is Some {
            Ok(ResolvedValiditySource::AssociatedAlpha)
        } else {
            Err(ValidityError::NoAlphaBand)
        },
        ValiditySourceChoice::Nodata => if nodata_usable {
            Ok(ResolvedValiditySource::Nodata)
        } else {
            Err(ValidityError::NoUsableNodata)
        },
        ValiditySourceChoice::Full => Ok(ResolvedValiditySource::Full),
        ValiditySourceChoice::Auto => Ok(
            automatic_source(has_masks, profile, nodata_usable, opts),
        ),
    }
}

/// What tells valid pixels where nothing is asked for.
pub fn resolve_auto(
    has_masks: bool,
    profile: &RasterProfile,
    nodata_usable: bool,
    opts: &FootprintOptions,
) -> (source: ResolvedValiditySource)
    requires
        bands_countable(*profile),
    ensures
        source == automatic_source(has_masks, *profile, nodata_usable, *opts),
{
    if has_masks {
        return ResolvedValiditySource::DatasetMask;
    }
    if opts.mask_from_alpha && associated_alpha_band_index(profile).is_some() {
        return ResolvedValiditySource::AssociatedAlpha;
    }
    if profile.nodata.is_some() && nodata_usable {
        return ResolvedValiditySource::Nodata;
    }
    if opts.black_rgb_transparent && black_rgb_candidate(profile) {
        return ResolvedValiditySource::BlackRgb;
    }
    ResolvedValiditySource::Full
}

/// What tells valid pixels. `nodata_usable` says whether the value for missing data is one
/// of the raster's samples.
pub fn resolve_validity_source(
    has_masks: bool,
    profile: &RasterProfile,
    nodata_usable: bool,
    opts: &FootprintOptions,
) -> (result: Result<ResolvedValiditySource, ValidityError>)
    requires
        bands_countable(*profile),
    ensures
        result == validity_source(has_masks, *profile, nodata_usable, *opts),
{
    match opts.source {
        ValiditySourceChoice::Mask => {
            if !has_masks {
                return Err(ValidityError::NoDatasetMask);
            }
            Ok(ResolvedValiditySource::DatasetMask)
        },
        ValiditySourceChoice::Alpha => {
            if associated_alpha_band_index(profile).is_none() {
                return Err(ValidityError::NoAlphaBand);
            }
            Ok(ResolvedValiditySource::AssociatedAlpha)
        },
        ValiditySourceChoice::Nodata => {
            if !nodata_usable {
                return Err(ValidityError::NoUsableNodata);
            }
            Ok(ResolvedValiditySource::Nodata)
        },
        ValiditySourceChoice::Full => Ok(ResolvedValiditySource::Full),
        ValiditySourceChoice::Auto => Ok(resolve_auto(has_masks, profile, nodata_usable, opts)),
    }
}

/// What is asked for and exists tells the valid pixels: a mask, an alpha band or a value for
/// missing data is resolved under its own name, and what does not exist is refused. All
/// pixels are valid only if that is asked for, or if nothing is asked for and nothing else is
/// there.
pub proof fn law_validity_comes_from_what_is_asked_for(
    has_masks: bool,
    profile: RasterProfile,
    nodata_usable: bool,
    opts: FootprintOptions,
    result: Result<ResolvedValiditySource, ValidityError>,
)
    requires
        result == validity_source(has_masks, profile, nodata_usable, opts),
    ensures
        opts.source is Mask && has_masks ==> result matches Ok(
            ResolvedValiditySource::DatasetMask,
        ),
        opts.source is Mask && !has_masks ==> result matches Err(ValidityError::NoDatasetMask),
        opts.source is Alpha && alpha_band(profile) is Some ==> result matches Ok(
            ResolvedValiditySource::AssociatedAlpha,
        ),
        opts.source is Alpha && alpha_band(profile) is None ==> result matches Err(
            ValidityError::NoAlphaBand,
        ),
        opts.source is Nodata && nodata_usable ==> result matches Ok(
            ResolvedValiditySource::Nodata,
        ),
        opts.source is Nodata && !nodata_usable ==> result matches Err(
            ValidityError::NoUsableNodata,
        ),
        result matches Ok(ResolvedValiditySource::Full) ==> opts.source is Full || (
        opts.source is Auto && !has_masks && !(opts.mask_from_alpha && alpha_band(profile) is Some)
            && !(profile.nodata is Some && nodata_usable) && !(opts.black_rgb_transparent
            && profile.bands == 3 && profile.photometric == PhotometricInterpretation::Rgb
            && profile.extra_samples@.len() == 0 && profile.sample.bits_per_sample == 8
            && profile.sample.sample_format == SampleFormat::Uint)),
        opts.source is Full || opts.source is Auto ==> result is Ok,
        opts.source is Full ==> result matches Ok(ResolvedValiditySource::Full),
{
}

/// Where nothing is asked for, each source of valid pixels goes before the ones behind it: a
/// mask, an alpha band, a value for missing data, black; a source is only resolved where it
/// exists and may be used.
pub proof fn law_automatic_validity_follows_precedence(
    has_masks: bool,
    profile: RasterProfile,
    nodata_usable: bool,
    opts: FootprintOptions,
)
    ensures
        ({
            let found = automatic_source(has_masks, profile, nodata_usable, opts);
            let alpha = opts.mask_from_alpha && alpha_band(profile) is Some;
            let nodata = profile.nodata is Some && nodata_usable;
            &&& found is DatasetMask <==> has_masks
            &&& found is AssociatedAlpha <==> !has_masks && alpha
            &&& found is Nodata <==> !has_masks && !alpha && nodata
            &&& found is BlackRgb ==> !has_masks && !alpha && !nodata && opts.black_rgb_transparent
                && profile.bands == 3 && alpha_band(profile) is None
        }),
{
}

/// The kinds of samples among which a value for missing data is looked for.
#[derive(Debug, Clone, Copy, PartialEq, Eq, Structural)]
pub enum NodataKind {
    U8,
    U16,
    U32,
    I8,
    I16,
    I32,
    F32,
    F64,
}

/// The kind of samples of a raster, none where it has no value for missing data or where
/// no such value is looked for among its samples.
pub fn nodata_kind_for_profile(profile: &RasterProfile) -> (kind: Option<NodataKind>)
    ensures
        kind == (if profile.nodata is None {
            None
        } else {
            nodata_kind(profile.sample.sample_format, profile.sample.bits_per_sample)
        }),
{
    if profile.nodata.is_none() {
        return None;
    }
    kind_of_samples(profile.sample.sample_format, profile.sample.bits_per_sample)
}

/// The kind of samples, none for those of 64-bit integers and of other sizes.
pub open spec fn nodata_kind(format: SampleFormat, bits: u16) -> Option<NodataKind> {
    match format {
        SampleFormat::Uint => if bits == 8 {
            Some(NodataKind::U8)
        } else if bits == 16 {
            Some(NodataKind::U16)
        } else if bits == 32 {
            Some(NodataKind::U32)
        } else {
            None
        },
        SampleFormat::Int => if bits == 8 {
            Some(NodataKind::I8)
        } else if bits == 16 {
            Some(NodataKind::I16)
        } else if bits == 32 {
            Some(NodataKind::I32)
        } else {
            None
        },
        SampleFormat::Float => if bits == 32 {
            Some(NodataKind::F32)
        } else if bits == 64 {
            Some(NodataKind::F64)
        } else {
            None
        },
    }
}

/// The kind of samples.
pub fn kind_of_samples(format: SampleFormat, bits: u16) -> (kind: Option<NodataKind>)
    ensures
        kind == nodata_kind(format, bits),
{
    match (format, bits) {
        (SampleFormat::Uint, 8) => Some(NodataKind::U8),
        (SampleFormat::Uint, 16) => Some(NodataKind::U16),
        (SampleFormat::Uint, 32) => Some(NodataKind::U32),
        (SampleFormat::Int, 8) => Some(NodataKind::I8),
        (SampleFormat::Int, 16) => Some(NodataKind::I16),
        (SampleFormat::Int, 32) => Some(NodataKind::I32),
        (SampleFormat::Float, 32) => Some(NodataKind::F32),
        (SampleFormat::Float, 64) => Some(NodataKind::F64),
        _ => None,
    }
}

/// A value for missing data, as a sample of an integer raster.
#[derive(Debug, Clone, Copy, PartialEq, Eq, Structural)]
pub enum NodataValue {
    U8(u8),
    U16(u16),
    U32(u32),
    I8(i8),
    I16(i16),
    I32(i32),
}

impl NodataValue {
    /// The value.
    pub open spec fn number(self) -> int {
        match self {
            NodataValue::U8(v) => v as int,
            NodataValue::U16(v) => v as int,
            NodataValue::U32(v) => v as int,
            NodataValue::I8(v) => v as int,
            NodataValue::I16(v) => v as int,
            NodataValue::I32(v) => v as int,
        }
    }

    /// Whether a sample is the value. A signed 8-bit value is compared with the bits of
    /// the sample.
    pub fn matches_u8(self, value: u8) -> (matches: bool)
        ensures
            matches == (match self {
                NodataValue::I8(v) => value as i8 == v,
                _ => value == self.number(),
            }),
    {
        match self {
            NodataValue::U8(v) => value == v,
            NodataValue::U16(v) => value as u16 == v,
            NodataValue::I8(v) => #[verifier::truncate]
            (value as i8) == v,
            NodataValue::I16(v) => value as i16 == v,
            NodataValue::U32(v) => value as u32 == v,
            NodataValue::I32(v) => value as i32 == v,
        }
    }

    /// Whether a sample is the value. A signed value of up to 16 bits is compared with
    /// the bits of the sample.
    pub fn matches_u16(self, value: u16) -> (matches: bool)
        ensures
            matches == (match self {
                NodataValue::I8(v) => value as i16 == v,
                NodataValue::I16(v) => value as i16 == v,
                _ => value == self.number(),
            }),
    {
        match self {
            NodataValue::U8(v) => value == v as u16,
            NodataValue::U16(v) => value == v,
            NodataValue::I8(v) => #[verifier::truncate]
            (value as i16) == v as i16,
            NodataValue::I16(v) => #[verifier::truncate]
            (value as i16) == v,
            NodataValue::U32(v) => value as u32 == v,
            NodataValue::I32(v) => value as i32 == v,
        }
    }

    /// Whether a sample is the value. An unsigned value is compared with the bits of the
    /// sample, extended or cut to its size.
    pub fn matches_i16(self, value: i16) -> (matches: bool)
        ensures
            matches == (match self {
                NodataValue::U8(v) => value as u8 == v,
                NodataValue::U16(v) => value as u16 == v,
                NodataValue::U32(v) => value as u32 == v,
                _ => value == self.number(),
            }),
    {
        match self {
            NodataValue::U8(v) => #[verifier::truncate]
            (value as u8) == v,
            NodataValue::U16(v) => #[verifier::truncate]
            (value as u16) == v,
            NodataValue::I8(v) => value == v as i16,
            NodataValue::I16(v) => value == v,
            NodataValue::U32(v) => #[verifier::truncate]
            (value as u32) == v,
            NodataValue::I32(v) => value as i32 == v,
        }
    }

    /// Whether a sample is the value, which has to be of the same kind.
    pub fn matches_u32(self, value: u32) -> (matches: bool)
        ensures
            matches == (self is U32 && value == self.number()),
    {
        match self {
            NodataValue::U32(v) => value == v,
            _ => false,
        }
    }

    /// Whether a sample is the value, which has to be of the same kind.
    pub fn matches_i32(self, value: i32) -> (matches: bool)
        ensures
            matches == (self is I32 && value == self.number()),
    {
        match self {
            NodataValue::I32(v) => value == v,
            _ => false,
        }
    }

    /// Whether a sample is the value, which has to be signed and of 16 bits at most.
    pub fn matches_i8(self, value: i8) -> (matches: bool)
        ensures
            matches == ((self is I8 || self is I16) && value == self.number()),
    {
        match self {
            NodataValue::I8(v) => value == v,
            NodataValue::I16(v) => value as i16 == v,
            _ => false,
        }
    }
}

/// No two things that tell valid pixels have the same name.
pub proof fn law_sources_have_their_own_names(
    one: ResolvedValiditySource,
    other: ResolvedValiditySource,
)
    ensures
        source_label(one) == source_label(other) ==> one == other,
{
    reveal_strlit("mask");
    reveal_strlit("alpha");
    reveal_strlit("nodata");
    reveal_strlit("black_rgb");
    reveal_strlit("full");
    assert("mask"@[0] == 'm' && "alpha"@[0] == 'a' && "nodata"@[0] == 'n' && "black_rgb"@[0] == 'b'
        && "full"@[0] == 'f');
}

/// Missing data are looked for in whole samples of up to 32 bits and in floating-point ones
/// of 32 and 64 bits, each among samples of its own size and format.
pub proof fn law_samples_of_supported_sizes_can_be_missing(format: SampleFormat, bits: u16)
    ensures
        nodata_kind(format, bits) is Some <==> (if format is Float {
            bits == 32 || bits == 64
        } else {
            bits == 8 || bits == 16 || bits == 32
        }),
        nodata_kind(format, bits) matches Some(kind) ==> {
            &&& kind is U8 || kind is U16 || kind is U32 <==> format is Uint
            &&& kind is I8 || kind is I16 || kind is I32 <==> format is Int
            &&& kind is U8 || kind is I8 <==> bits == 8
            &&& kind is U16 || kind is I16 <==> bits == 16
            &&& kind is F64 <==> bits == 64
        },
{
}

} // verus!
