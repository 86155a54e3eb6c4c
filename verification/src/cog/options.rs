//! Choices that a caller makes for the output.
use crate::cog::grid::{
    auto_overview_levels, is_auto_pyramid, law_auto_levels_double, law_auto_levels_unique,
};
use crate::text::{lowered, lowered_equals};
use crate::tiff::{Compression, Predictor, SampleFormat};
use vstd::prelude::*;

verus! {

/// Why an option is refused.
#[derive(Debug, Clone, Copy, PartialEq, Eq, Structural)]
pub enum OptionError {
    UnknownName,
    BlocksizeNotMultipleOf16,
    DeflateLevelTooHigh,
    JpegQualityOutOfRange,
    NegativeLercError,
}

/// How output tiles are compressed.
#[derive(Clone, Copy, Debug, PartialEq, Eq, Structural)]
pub enum CompressionChoice {
    Uncompressed,
    Lzw,
    Deflate,
    Zstd,
    Jpeg,
    Lerc,
}

impl CompressionChoice {
    /// The choice with this name, whose letters may be of either case.
    pub open spec fn named(name: Seq<char>) -> Option<CompressionChoice> {
        let lower = lowered(name);
        if lower == "none"@ {
            Some(CompressionChoice::Uncompressed)
        } else if lower == "lzw"@ {
            Some(CompressionChoice::Lzw)
        } else if lower == "deflate"@ {
            Some(CompressionChoice::Deflate)
        } else if lower == "zstd"@ {
            Some(CompressionChoice::Zstd)
        } else if lower == "jpeg"@ {
            Some(CompressionChoice::Jpeg)
        } else if lower == "lerc"@ {
            Some(CompressionChoice::Lerc)
        } else {
            None
        }
    }

    /// The scheme that stands in the file.
    pub open spec fn scheme(self) -> Compression {
        match self {
            CompressionChoice::Uncompressed => Compression::Uncompressed,
            CompressionChoice::Lzw => Compression::Lzw,
            CompressionChoice::Deflate => Compression::Deflate,
            CompressionChoice::Zstd => Compression::Zstd,
            CompressionChoice::Jpeg => Compression::Jpeg,
            CompressionChoice::Lerc => Compression::Lerc,
        }
    }

    pub fn to_compression(self) -> (compression: Compression)
        ensures
            compression == self.scheme(),
    {
        match self {
            CompressionChoice::Uncompressed => Compression::Uncompressed,
            CompressionChoice::Lzw => Compression::Lzw,
            CompressionChoice::Deflate => Compression::Deflate,
            CompressionChoice::Zstd => Compression::Zstd,
            CompressionChoice::Jpeg => Compression::Jpeg,
            CompressionChoice::Lerc => Compression::Lerc,
        }
    }

    /// The choice with this name, whose letters may be of either case.
    pub fn from_name(name: &str) -> (result: Result<CompressionChoice, OptionError>)
        ensures
            result == (match CompressionChoice::named(name@) {
                Some(choice) => Ok(choice),
                None => Err(OptionError::UnknownName),
            }),
    {
        if lowered_equals(name, "none") {
            Ok(CompressionChoice::Uncompressed)
        } else if lowered_equals(name, "lzw") {
            Ok(CompressionChoice::Lzw)
        } else if lowered_equals(name, "deflate") {
            Ok(CompressionChoice::Deflate)
        } else if lowered_equals(name, "zstd") {
            Ok(CompressionChoice::Zstd)
        } else if lowered_equals(name, "jpeg") {
            Ok(CompressionChoice::Jpeg)
        } else if lowered_equals(name, "lerc") {
            Ok(CompressionChoice::Lerc)
        } else {
            Err(OptionError::UnknownName)
        }
    }
}

/// What compresses a LERC payload once more.
#[derive(Clone, Copy, Debug, PartialEq, Eq, Structural)]
pub enum LercAdditionalCompressionChoice {
    Uncompressed,
    Deflate,
    Zstd,
}

impl LercAdditionalCompressionChoice {
    /// The choice with this name, whose letters may be of either case.
    pub open spec fn named(name: Seq<char>) -> Option<LercAdditionalCompressionChoice> {
        let lower = lowered(name);
        if lower == "none"@ {
            Some(LercAdditionalCompressionChoice::Uncompressed)
        } else if lower == "deflate"@ {
            Some(LercAdditionalCompressionChoice::Deflate)
        } else if lower == "zstd"@ {
            Some(LercAdditionalCompressionChoice::Zstd)
        } else {
            None
        }
    }

    /// The choice with this name, whose letters may be of either case.
    pub fn from_name(name: &str) -> (result: Result<LercAdditionalCompressionChoice, OptionError>)
        ensures
            result == (match LercAdditionalCompressionChoice::named(name@) {
                Some(choice) => Ok(choice),
                None => Err(OptionError::UnknownName),
            }),
    {
        if lowered_equals(name, "none") {
            Ok(LercAdditionalCompressionChoice::Uncompressed)
        } else if lowered_equals(name, "deflate") {
            Ok(LercAdditionalCompressionChoice::Deflate)
        } else if lowered_equals(name, "zstd") {
            Ok(LercAdditionalCompressionChoice::Zstd)
        } else {
            Err(OptionError::UnknownName)
        }
    }
}

/// How pixels are reduced for an overview.
#[derive(Clone, Copy, Debug, PartialEq, Eq, Structural)]
pub enum ResamplingChoice {
    Nearest,
    Average,
    Bilinear,
    Cubic,
    Lanczos,
}

impl ResamplingChoice {
    /// The choice with this name, whose letters may be of either case.
    pub open spec fn named(name: Seq<char>) -> Option<ResamplingChoice> {
        let lower = lowered(name);
        if lower == "nearest"@ {
            Some(ResamplingChoice::Nearest)
        } else if lower == "average"@ || lower == "avg"@ || lower == "mean"@ {
            Some(ResamplingChoice::Average)
        } else if lower == "bilinear"@ || lower == "linear"@ {
            Some(ResamplingChoice::Bilinear)
        } else if lower == "cubic"@ {
            Some(ResamplingChoice::Cubic)
        } else if lower == "lanczos"@ {
            Some(ResamplingChoice::Lanczos)
        } else {
            None
        }
    }

    /// The choice with this name, whose letters may be of either case.
    pub fn from_name(name: &str) -> (result: Result<ResamplingChoice, OptionError>)
        ensures
            result == (match ResamplingChoice::named(name@) {
                Some(choice) => Ok(choice),
                None => Err(OptionError::UnknownName),
            }),
    {
        if lowered_equals(name, "nearest") {
            Ok(ResamplingChoice::Nearest)
        } else if lowered_equals(name, "average") || lowered_equals(name, "avg") || lowered_equals(
            name,
            "mean",
        ) {
            Ok(ResamplingChoice::Average)
        } else if lowered_equals(name, "bilinear") || lowered_equals(name, "linear") {
            Ok(ResamplingChoice::Bilinear)
        } else if lowered_equals(name, "cubic") {
            Ok(ResamplingChoice::Cubic)
        } else if lowered_equals(name, "lanczos") {
            Ok(ResamplingChoice::Lanczos)
        } else {
            Err(OptionError::UnknownName)
        }
    }
}

/// Options of the output.
#[derive(Debug)]
pub struct CogOutputOptions {
    pub blocksize: u32,
    pub compression: CompressionChoice,
    pub deflate_level: u32,
    pub resampling: ResamplingChoice,
    pub overview_levels: Option<Vec<u32>>,
    pub no_overviews: bool,
    /// Make a mask from an alpha band where the source has no mask.
    pub mask_from_alpha: bool,
    /// Treat black pixels as transparent where the source has neither mask nor alpha.
    pub black_rgb_transparent: bool,
    /// JPEG quality from 1 to 100.
    pub jpeg_quality: u8,
    /// What compresses a LERC payload once more.
    pub lerc_additional_compression: LercAdditionalCompressionChoice,
}

impl Default for CogOutputOptions {
    fn default() -> (options: CogOutputOptions)
        ensures
            options.blocksize == 512,
            options.compression == CompressionChoice::Deflate,
            options.deflate_level == 6,
            options.resampling == ResamplingChoice::Average,
            options.overview_levels is None,
            !options.no_overviews,
            options.mask_from_alpha,
            !options.black_rgb_transparent,
            options.jpeg_quality == 75,
            options.lerc_additional_compression == LercAdditionalCompressionChoice::Uncompressed,
    {
        CogOutputOptions {
            blocksize: 512,
            compression: CompressionChoice::Deflate,
            deflate_level: 6,
            resampling: ResamplingChoice::Average,
            overview_levels: None,
            no_overviews: false,
            mask_from_alpha: true,
            black_rgb_transparent: false,
            jpeg_quality: 75,
            lerc_additional_compression: LercAdditionalCompressionChoice::Uncompressed,
        }
    }
}

/// The predictor for a sample format: horizontal differences where integers are
/// compressed by a dictionary or entropy coder.
pub open spec fn predictor_for(compression: CompressionChoice, format: SampleFormat) -> Predictor {
    if format != SampleFormat::Float && (compression == CompressionChoice::Deflate || compression
        == CompressionChoice::Zstd || compression == CompressionChoice::Lzw) {
        Predictor::Horizontal
    } else {
        Predictor::Identity
    }
}

impl CogOutputOptions {
    /// Checks the options. Whether the largest error that LERC may make is negative is
    /// the caller's finding. The first violation is the one reported.
    pub fn validate(&self, lerc_error_negative: bool) -> (result: Result<(), OptionError>)
        ensures
            result == (if self.blocksize % 16 != 0 {
                Err(OptionError::BlocksizeNotMultipleOf16)
            } else if self.deflate_level > 9 {
                Err(OptionError::DeflateLevelTooHigh)
            } else if self.jpeg_quality == 0 || self.jpeg_quality > 100 {
                Err(OptionError::JpegQualityOutOfRange)
            } else if lerc_error_negative {
                Err(OptionError::NegativeLercError)
            } else {
                Ok(())
            }),
    {
        if self.blocksize % 16 != 0 {
            return Err(OptionError::BlocksizeNotMultipleOf16);
        }
        if self.deflate_level > 9 {
            return Err(OptionError::DeflateLevelTooHigh);
        }
        if self.jpeg_quality == 0 || self.jpeg_quality > 100 {
            return Err(OptionError::JpegQualityOutOfRange);
        }
        if lerc_error_negative {
            return Err(OptionError::NegativeLercError);
        }
        Ok(())
    }

    /// Whether `levels` are the decimation factors of the overviews: none where they
    /// are switched off, those that the caller listed, else the default pyramid.
    pub open spec fn are_overview_levels(&self, width: u32, height: u32, levels: Seq<u32>) -> bool {
        if self.no_overviews {
            levels.len() == 0
        } else {
            match self.overview_levels {
                Some(listed) => levels == listed@,
                None => is_auto_pyramid(
                    width as nat,
                    height as nat,
                    self.blocksize as nat,
                    levels,
                ),
            }
        }
    }

    /// The levels that are asked for, if any, are positive.
    pub open spec fn lists_levels(&self) -> bool {
        !self.no_overviews && self.overview_levels is Some ==> forall|i: int|
            0 <= i < self.overview_levels->0@.len() ==> #[trigger] self.overview_levels->0@[i] > 0
    }

    /// The options make out one list of levels, whose levels are positive.
    pub proof fn lemma_one_pyramid(&self, width: u32, height: u32, levels: Seq<u32>)
        requires
            self.are_overview_levels(width, height, levels),
            self.lists_levels(),
        ensures
            forall|i: int| 0 <= i < levels.len() ==> #[trigger] levels[i] > 0,
            forall|other: Seq<u32>| #[trigger]
                self.are_overview_levels(width, height, other) ==> other == levels,
    {
        assert forall|other: Seq<u32>| #[trigger]
            self.are_overview_levels(width, height, other) implies other == levels by {
            if !self.no_overviews && self.overview_levels is None {
                law_auto_levels_unique(
                    width as nat,
                    height as nat,
                    self.blocksize as nat,
                    levels,
                    other,
                );
            } else if self.no_overviews {
                assert(other =~= levels);
            }
        }
        if !self.no_overviews && self.overview_levels is None {
            law_auto_levels_double(width as nat, height as nat, self.blocksize as nat, levels);
        }
    }

    /// The decimation factors of the overviews.
    pub fn effective_overview_levels(&self, width: u32, height: u32) -> (levels: Vec<u32>)
        ensures
            self.are_overview_levels(width, height, levels@),
    {
        if self.no_overviews {
            return Vec::new();
        }
        match &self.overview_levels {
            Some(listed) => vstd::slice::slice_to_vec(listed.as_slice()),
            None => auto_overview_levels(width, height, self.blocksize),
        }
    }

    pub fn encode_predictor_for(&self, sample_format: SampleFormat) -> (predictor: Predictor)
        ensures
            predictor == predictor_for(self.compression, sample_format),
    {
        if sample_format == SampleFormat::Float {
            return Predictor::Identity;
        }
        match self.compression {
            CompressionChoice::Deflate | CompressionChoice::Zstd | CompressionChoice::Lzw => {
                Predictor::Horizontal
            },
            _ => Predictor::Identity,
        }
    }

    pub fn encode_predictor(&self) -> (predictor: Predictor)
        ensures
            predictor == predictor_for(self.compression, SampleFormat::Uint),
    {
        self.encode_predictor_for(SampleFormat::Uint)
    }
}

/// The decimation factors of the overviews.
pub fn overview_levels(opts: &CogOutputOptions, width: u32, height: u32) -> (levels: Vec<u32>)
    ensures
        opts.are_overview_levels(width, height, levels@),
{
    opts.effective_overview_levels(width, height)
}

/// A choice of compression is the scheme of its name.
pub proof fn law_choices_name_their_schemes(choice: CompressionChoice)
    ensures
        choice is Uncompressed <==> choice.scheme() is Uncompressed,
        choice is Lzw <==> choice.scheme() is Lzw,
        choice is Deflate <==> choice.scheme() is Deflate,
        choice is Zstd <==> choice.scheme() is Zstd,
        choice is Jpeg <==> choice.scheme() is Jpeg,
        choice is Lerc <==> choice.scheme() is Lerc,
{
}

/// Differences between neighbors are stored only for whole samples that are compressed
/// without loss, and for all of those.
pub proof fn law_predictor_suits_compression(compression: CompressionChoice, format: SampleFormat)
    ensures
        predictor_for(compression, format) is Horizontal <==> (format is Uint || format is Int) && (
        compression is Deflate || compression is Zstd || compression is Lzw),
        !(predictor_for(compression, format) is Horizontal) ==> predictor_for(
            compression,
            format,
        ) is Identity,
{
}

/// A name is read whatever the case of its letters, and no two compressions share one.
pub proof fn law_compressions_are_read_by_name(name: Seq<char>)
    ensures
        lowered(name) == "none"@ ==> CompressionChoice::named(name) == Some(
            CompressionChoice::Uncompressed,
        ),
        lowered(name) == "lzw"@ ==> CompressionChoice::named(name) == Some(CompressionChoice::Lzw),
        lowered(name) == "deflate"@ ==> CompressionChoice::named(name) == Some(
            CompressionChoice::Deflate,
        ),
        lowered(name) == "zstd"@ ==> CompressionChoice::named(name) == Some(
            CompressionChoice::Zstd,
        ),
        lowered(name) == "jpeg"@ ==> CompressionChoice::named(name) == Some(
            CompressionChoice::Jpeg,
        ),
        lowered(name) == "lerc"@ ==> CompressionChoice::named(name) == Some(
            CompressionChoice::Lerc,
        ),
{
    reveal_strlit("none");
    reveal_strlit("lzw");
    reveal_strlit("deflate");
    reveal_strlit("zstd");
    reveal_strlit("jpeg");
    reveal_strlit("lerc");
    let names = seq!["none"@, "lzw"@, "deflate"@, "zstd"@, "jpeg"@, "lerc"@];
    assert("none"@[0] == 'n' && "lzw"@.len() == 3 && "deflate"@.len() == 7 && "zstd"@[0] == 'z'
        && "jpeg"@[0] == 'j' && "lerc"@[0] == 'l' && "none"@.len() == 4 && "zstd"@.len() == 4
        && "jpeg"@.len() == 4 && "lerc"@.len() == 4);
}

/// A way to reduce pixels is read by each of its names, whatever the case of their letters.
pub proof fn law_resampling_is_read_by_name(name: Seq<char>)
    ensures
        lowered(name) == "nearest"@ ==> ResamplingChoice::named(name) == Some(
            ResamplingChoice::Nearest,
        ),
        lowered(name) == "average"@ ==> ResamplingChoice::named(name) == Some(
            ResamplingChoice::Average,
        ),
        lowered(name) == "bilinear"@ ==> ResamplingChoice::named(name) == Some(
            ResamplingChoice::Bilinear,
        ),
        lowered(name) == "cubic"@ ==> ResamplingChoice::named(name) == Some(
            ResamplingChoice::Cubic,
        ),
        lowered(name) == "lanczos"@ ==> ResamplingChoice::named(name) == Some(
            ResamplingChoice::Lanczos,
        ),
{
    reveal_strlit("nearest");
    reveal_strlit("average");
    reveal_strlit("avg");
    reveal_strlit("mean");
    reveal_strlit("bilinear");
    reveal_strlit("linear");
    reveal_strlit("cubic");
    reveal_strlit("lanczos");
    assert("nearest"@[0] == 'n' && "average"@[0] == 'a' && "avg"@[0] == 'a' && "mean"@[0] == 'm'
        && "bilinear"@[0] == 'b' && "linear"@.len() == 6 && "cubic"@[0] == 'c' && "lanczos"@.len()
        == 7 && "lanczos"@[0] == 'l');
}

/// Overviews are those that are listed, or those of the default pyramid, or none if none are
/// asked for.
pub proof fn law_overviews_are_those_asked_for(
    opts: CogOutputOptions,
    width: u32,
    height: u32,
    levels: Seq<u32>,
)
    requires
        opts.are_overview_levels(width, height, levels),
    ensures
        opts.no_overviews ==> levels.len() == 0,
        !opts.no_overviews && opts.overview_levels is Some ==> levels == opts.overview_levels->0@,
        !opts.no_overviews && opts.overview_levels is None ==> {
            &&& levels.len() > 0 ==> levels[0] == 2
            &&& forall|i: int|
                0 <= i < levels.len() - 1 ==> levels[i + 1] == 2 * (#[trigger] levels[i])
            &&& width <= opts.blocksize && height <= opts.blocksize <==> levels.len() == 0
        },
{
    if !opts.no_overviews && opts.overview_levels is None {
        crate::cog::grid::law_auto_levels_double(
            width as nat,
            height as nat,
            opts.blocksize as nat,
            levels,
        );
        crate::cog::grid::law_auto_pyramid_ends_in_a_block(
            width as nat,
            height as nat,
            opts.blocksize as nat,
            levels,
            0,
        );
    }
}

/// Further names of ways to reduce pixels, and names of the second compression of LERC. Other
/// names are unknown.
pub proof fn law_other_names_are_read_or_refused(name: Seq<char>)
    ensures
        lowered(name) == "avg"@ || lowered(name) == "mean"@ ==> ResamplingChoice::named(name)
            == Some(ResamplingChoice::Average),
        lowered(name) == "linear"@ ==> ResamplingChoice::named(name) == Some(
            ResamplingChoice::Bilinear,
        ),
        lowered(name) == "none"@ ==> LercAdditionalCompressionChoice::named(name) == Some(
            LercAdditionalCompressionChoice::Uncompressed,
        ),
        lowered(name) == "deflate"@ ==> LercAdditionalCompressionChoice::named(name) == Some(
            LercAdditionalCompressionChoice::Deflate,
        ),
        lowered(name) == "zstd"@ ==> LercAdditionalCompressionChoice::named(name) == Some(
            LercAdditionalCompressionChoice::Zstd,
        ),
        name.len() < 3 || name.len() > 8 ==> ResamplingChoice::named(name) is None
            && CompressionChoice::named(name) is None && LercAdditionalCompressionChoice::named(
            name,
        ) is None,
{
    reveal_strlit("nearest");
    reveal_strlit("average");
    reveal_strlit("avg");
    reveal_strlit("mean");
    reveal_strlit("bilinear");
    reveal_strlit("linear");
    reveal_strlit("cubic");
    reveal_strlit("lanczos");
    reveal_strlit("none");
    reveal_strlit("lzw");
    reveal_strlit("deflate");
    reveal_strlit("zstd");
    reveal_strlit("jpeg");
    reveal_strlit("lerc");
    assert(lowered(name).len() == name.len());
    assert("nearest"@[0] == 'n' && "nearest"@.len() == 7 && "average"@.len() == 7 && "avg"@.len()
        == 3 && "mean"@.len() == 4 && "bilinear"@.len() == 8 && "linear"@.len() == 6
        && "cubic"@.len() == 5 && "lanczos"@.len() == 7 && "none"@.len() == 4 && "none"@[0] == 'n'
        && "lzw"@.len() == 3 && "deflate"@.len() == 7 && "zstd"@.len() == 4 && "zstd"@[0] == 'z'
        && "jpeg"@.len() == 4 && "lerc"@.len() == 4 && "mean"@[0] == 'm');
}

} // verus!
