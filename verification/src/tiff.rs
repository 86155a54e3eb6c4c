//! TIFF tag values that the conversion decides on, as plain values.
//!
//! The codes behind the values are those of the `tiff_core` crate.
use vstd::prelude::*;

verus! {

/// How a block is compressed.
#[derive(Debug, Clone, Copy, PartialEq, Eq, Structural)]
pub enum Compression {
    Uncompressed,
    Lzw,
    OldJpeg,
    Jpeg,
    Deflate,
    PackBits,
    DeflateOld,
    Lerc,
    Zstd,
    WebP,
}

impl Compression {
    /// The name of a compression.
    pub fn name(self) -> (name: &'static str)
        ensures
            name@ == compression_name(self),
    {
        match self {
            Compression::Uncompressed => "None",
            Compression::Lzw => "LZW",
            Compression::OldJpeg => "OldJpeg",
            Compression::Jpeg => "JPEG",
            Compression::Deflate => "Deflate",
            Compression::PackBits => "PackBits",
            Compression::DeflateOld => "DeflateOld",
            Compression::Lerc => "LERC",
            Compression::Zstd => "ZSTD",
            Compression::WebP => "WebP",
        }
    }
}

/// The name of a compression.
pub open spec fn compression_name(compression: Compression) -> Seq<char> {
    match compression {
        Compression::Uncompressed => "None"@,
        Compression::Lzw => "LZW"@,
        Compression::OldJpeg => "OldJpeg"@,
        Compression::Jpeg => "JPEG"@,
        Compression::Deflate => "Deflate"@,
        Compression::PackBits => "PackBits"@,
        Compression::DeflateOld => "DeflateOld"@,
        Compression::Lerc => "LERC"@,
        Compression::Zstd => "ZSTD"@,
        Compression::WebP => "WebP"@,
    }
}

/// How samples are prepared before compression.
#[derive(Debug, Clone, Copy, PartialEq, Eq, Structural)]
pub enum Predictor {
    Identity,
    Horizontal,
    FloatingPoint,
}

/// What the bits of a sample mean.
#[derive(Debug, Clone, Copy, PartialEq, Eq, Structural)]
pub enum SampleFormat {
    Uint,
    Int,
    Float,
}

/// What the bands of a pixel mean.
#[derive(Debug, Clone, Copy, PartialEq, Eq, Structural)]
pub enum PhotometricInterpretation {
    MinIsWhite,
    MinIsBlack,
    Rgb,
    Palette,
    Mask,
    Separated,
    YCbCr,
    CieLab,
}

impl PhotometricInterpretation {
    /// The name of an interpretation.
    pub fn name(self) -> (name: &'static str)
        ensures
            name@ == photometric_name(self),
    {
        match self {
            PhotometricInterpretation::MinIsWhite => "MinIsWhite",
            PhotometricInterpretation::MinIsBlack => "MinIsBlack",
            PhotometricInterpretation::Rgb => "Rgb",
            PhotometricInterpretation::Palette => "Palette",
            PhotometricInterpretation::Mask => "Mask",
            PhotometricInterpretation::Separated => "Separated",
            PhotometricInterpretation::YCbCr => "YCbCr",
            PhotometricInterpretation::CieLab => "CieLab",
        }
    }
}

/// The name of an interpretation.
pub open spec fn photometric_name(photometric: PhotometricInterpretation) -> Seq<char> {
    match photometric {
        PhotometricInterpretation::MinIsWhite => "MinIsWhite"@,
        PhotometricInterpretation::MinIsBlack => "MinIsBlack"@,
        PhotometricInterpretation::Rgb => "Rgb"@,
        PhotometricInterpretation::Palette => "Palette"@,
        PhotometricInterpretation::Mask => "Mask"@,
        PhotometricInterpretation::Separated => "Separated"@,
        PhotometricInterpretation::YCbCr => "YCbCr"@,
        PhotometricInterpretation::CieLab => "CieLab"@,
    }
}

/// What a band beyond the color bands means.
#[derive(Debug, Clone, Copy, PartialEq, Eq, Structural)]
pub enum ExtraSample {
    Unspecified,
    AssociatedAlpha,
    UnassociatedAlpha,
    Unknown(u16),
}

/// Whether the bands of a pixel are stored together or band by band.
#[derive(Debug, Clone, Copy, PartialEq, Eq, Structural)]
pub enum PlanarConfiguration {
    Chunky,
    Planar,
}

/// The compression with this tag value.
pub open spec fn compression_of_code(code: u16) -> Option<Compression> {
    if code == 1 {
        Some(Compression::Uncompressed)
    } else if code == 5 {
        Some(Compression::Lzw)
    } else if code == 6 {
        Some(Compression::OldJpeg)
    } else if code == 7 {
        Some(Compression::Jpeg)
    } else if code == 8 {
        Some(Compression::Deflate)
    } else if code == 32773 {
        Some(Compression::PackBits)
    } else if code == 32946 {
        Some(Compression::DeflateOld)
    } else if code == 34887 {
        Some(Compression::Lerc)
    } else if code == 50000 {
        Some(Compression::Zstd)
    } else if code == 50001 {
        Some(Compression::WebP)
    } else {
        None
    }
}

/// The predictor with this tag value.
pub open spec fn predictor_of_code(code: u16) -> Option<Predictor> {
    if code == 1 {
        Some(Predictor::Identity)
    } else if code == 2 {
        Some(Predictor::Horizontal)
    } else if code == 3 {
        Some(Predictor::FloatingPoint)
    } else {
        None
    }
}

/// The sample format with this tag value.
pub open spec fn sample_format_of_code(code: u16) -> Option<SampleFormat> {
    if code == 1 {
        Some(SampleFormat::Uint)
    } else if code == 2 {
        Some(SampleFormat::Int)
    } else if code == 3 {
        Some(SampleFormat::Float)
    } else {
        None
    }
}

/// The interpretation with this tag value.
pub open spec fn photometric_of_code(code: u16) -> Option<PhotometricInterpretation> {
    if code == 0 {
        Some(PhotometricInterpretation::MinIsWhite)
    } else if code == 1 {
        Some(PhotometricInterpretation::MinIsBlack)
    } else if code == 2 {
        Some(PhotometricInterpretation::Rgb)
    } else if code == 3 {
        Some(PhotometricInterpretation::Palette)
    } else if code == 4 {
        Some(PhotometricInterpretation::Mask)
    } else if code == 5 {
        Some(PhotometricInterpretation::Separated)
    } else if code == 6 {
        Some(PhotometricInterpretation::YCbCr)
    } else if code == 8 {
        Some(PhotometricInterpretation::CieLab)
    } else {
        None
    }
}

/// The planar configuration with this tag value.
pub open spec fn planar_of_code(code: u16) -> Option<PlanarConfiguration> {
    if code == 1 {
        Some(PlanarConfiguration::Chunky)
    } else if code == 2 {
        Some(PlanarConfiguration::Planar)
    } else {
        None
    }
}

/// `tiff_core::Compression::from_code`: the scheme that a value of the Compression tag
/// names, none for a value that the crate does not know.
#[verifier::external_body]
pub(crate) fn compression_from_code(code: u16) -> (compression: Option<Compression>)
    ensures
        compression == compression_of_code(code),
{
    tiff_core::Compression::from_code(code).map(|c| match c {
        tiff_core::Compression::None => Compression::Uncompressed,
        tiff_core::Compression::Lzw => Compression::Lzw,
        tiff_core::Compression::OldJpeg => Compression::OldJpeg,
        tiff_core::Compression::Jpeg => Compression::Jpeg,
        tiff_core::Compression::Deflate => Compression::Deflate,
        tiff_core::Compression::PackBits => Compression::PackBits,
        tiff_core::Compression::DeflateOld => Compression::DeflateOld,
        tiff_core::Compression::Lerc => Compression::Lerc,
        tiff_core::Compression::Zstd => Compression::Zstd,
        tiff_core::Compression::WebP => Compression::WebP,
    })
}

/// `tiff_core::Predictor::from_code`: the predictor that a value of the Predictor tag
/// names, none for a value that the crate does not know.
#[verifier::external_body]
pub(crate) fn predictor_from_code(code: u16) -> (predictor: Option<Predictor>)
    ensures
        predictor == predictor_of_code(code),
{
    tiff_core::Predictor::from_code(code).map(|p| match p {
        tiff_core::Predictor::None => Predictor::Identity,
        tiff_core::Predictor::Horizontal => Predictor::Horizontal,
        tiff_core::Predictor::FloatingPoint => Predictor::FloatingPoint,
    })
}

/// `tiff_core::SampleFormat::from_code`: the format that a value of the SampleFormat
/// tag names, none for a value that the crate does not know.
#[verifier::external_body]
pub(crate) fn sample_format_from_code(code: u16) -> (format: Option<SampleFormat>)
    ensures
        format == sample_format_of_code(code),
{
    tiff_core::SampleFormat::from_code(code).map(|f| match f {
        tiff_core::SampleFormat::Uint => SampleFormat::Uint,
        tiff_core::SampleFormat::Int => SampleFormat::Int,
        tiff_core::SampleFormat::Float => SampleFormat::Float,
    })
}

/// `tiff_core::PlanarConfiguration::from_code`: the layout that a value of the
/// PlanarConfiguration tag names, none for a value that the crate does not know.
#[verifier::external_body]
pub(crate) fn planar_from_code(code: u16) -> (planar: Option<PlanarConfiguration>)
    ensures
        planar == planar_of_code(code),
{
    tiff_core::PlanarConfiguration::from_code(code).map(|p| match p {
        tiff_core::PlanarConfiguration::Chunky => PlanarConfiguration::Chunky,
        tiff_core::PlanarConfiguration::Planar => PlanarConfiguration::Planar,
    })
}

/// `tiff_core::PhotometricInterpretation::from_code`: the interpretation that a value of
/// the PhotometricInterpretation tag names, none for a value that the crate does not know.
#[verifier::external_body]
pub(crate) fn photometric_from_code(code: u16) -> (photometric: Option<PhotometricInterpretation>)
    ensures
        photometric == photometric_of_code(code),
{
    tiff_core::PhotometricInterpretation::from_code(code).map(|p| match p {
        tiff_core::PhotometricInterpretation::MinIsWhite => PhotometricInterpretation::MinIsWhite,
        tiff_core::PhotometricInterpretation::MinIsBlack => PhotometricInterpretation::MinIsBlack,
        tiff_core::PhotometricInterpretation::Rgb => PhotometricInterpretation::Rgb,
        tiff_core::PhotometricInterpretation::Palette => PhotometricInterpretation::Palette,
        tiff_core::PhotometricInterpretation::Mask => PhotometricInterpretation::Mask,
        tiff_core::PhotometricInterpretation::Separated => PhotometricInterpretation::Separated,
        tiff_core::PhotometricInterpretation::YCbCr => PhotometricInterpretation::YCbCr,
        tiff_core::PhotometricInterpretation::CieLab => PhotometricInterpretation::CieLab,
    })
}

/// The machine type of a sample.
#[derive(Debug, Clone, Copy, PartialEq, Eq, Structural)]
pub enum SampleKind {
    U8,
    I8,
    U16,
    I16,
    U32,
    I32,
    F32,
    U64,
    I64,
    F64,
}

/// The machine type of samples with this many bits: whole bytes, and floating point
/// from 32 bits on.
pub open spec fn kind_of(bits_per_sample: u16, format: SampleFormat) -> Option<SampleKind> {
    if bits_per_sample == 8 {
        match format {
            SampleFormat::Uint => Some(SampleKind::U8),
            SampleFormat::Int => Some(SampleKind::I8),
            SampleFormat::Float => None,
        }
    } else if bits_per_sample == 16 {
        match format {
            SampleFormat::Uint => Some(SampleKind::U16),
            SampleFormat::Int => Some(SampleKind::I16),
            SampleFormat::Float => None,
        }
    } else if bits_per_sample == 32 {
        match format {
            SampleFormat::Uint => Some(SampleKind::U32),
            SampleFormat::Int => Some(SampleKind::I32),
            SampleFormat::Float => Some(SampleKind::F32),
        }
    } else if bits_per_sample == 64 {
        match format {
            SampleFormat::Uint => Some(SampleKind::U64),
            SampleFormat::Int => Some(SampleKind::I64),
            SampleFormat::Float => Some(SampleKind::F64),
        }
    } else {
        None
    }
}

/// The machine type of samples with this many bits.
pub fn sample_kind(bits_per_sample: u16, format: SampleFormat) -> (kind: Option<SampleKind>)
    ensures
        kind == kind_of(bits_per_sample, format),
{
    match (bits_per_sample, format) {
        (8, SampleFormat::Uint) => Some(SampleKind::U8),
        (8, SampleFormat::Int) => Some(SampleKind::I8),
        (16, SampleFormat::Uint) => Some(SampleKind::U16),
        (16, SampleFormat::Int) => Some(SampleKind::I16),
        (32, SampleFormat::Uint) => Some(SampleKind::U32),
        (32, SampleFormat::Int) => Some(SampleKind::I32),
        (32, SampleFormat::Float) => Some(SampleKind::F32),
        (64, SampleFormat::Uint) => Some(SampleKind::U64),
        (64, SampleFormat::Int) => Some(SampleKind::I64),
        (64, SampleFormat::Float) => Some(SampleKind::F64),
        _ => None,
    }
}

/// The kind of a sample has its size and its format.
pub proof fn law_kinds_have_the_sample_size(bits: u16, format: SampleFormat, kind: SampleKind)
    requires
        kind_of(bits, format) == Some(kind),
    ensures
        kind is U8 || kind is I8 <==> bits == 8,
        kind is U16 || kind is I16 <==> bits == 16,
        kind is U32 || kind is I32 || kind is F32 <==> bits == 32,
        kind is U64 || kind is I64 || kind is F64 <==> bits == 64,
        kind is U8 || kind is U16 || kind is U32 || kind is U64 <==> format is Uint,
        kind is I8 || kind is I16 || kind is I32 || kind is I64 <==> format is Int,
        kind is F32 || kind is F64 <==> format is Float,
{
}

/// Whole samples of 8, 16, 32 and 64 bits have a kind, and floating-point ones of 32 and 64.
pub proof fn law_machine_samples_have_a_kind(bits: u16, format: SampleFormat)
    ensures
        kind_of(bits, format) is Some <==> bits == 32 || bits == 64 || ((bits == 8 || bits == 16)
            && (format is Uint || format is Int)),
{
}

/// The codes of compressions, as files hold them.
pub proof fn law_compressions_have_their_codes(code: u16)
    ensures
        code == 1 <==> compression_of_code(code) == Some(Compression::Uncompressed),
        code == 5 <==> compression_of_code(code) == Some(Compression::Lzw),
        code == 6 <==> compression_of_code(code) == Some(Compression::OldJpeg),
        code == 7 <==> compression_of_code(code) == Some(Compression::Jpeg),
        code == 8 <==> compression_of_code(code) == Some(Compression::Deflate),
        code == 32773 <==> compression_of_code(code) == Some(Compression::PackBits),
        code == 32946 <==> compression_of_code(code) == Some(Compression::DeflateOld),
        code == 34887 <==> compression_of_code(code) == Some(Compression::Lerc),
        code == 50000 <==> compression_of_code(code) == Some(Compression::Zstd),
        code == 50001 <==> compression_of_code(code) == Some(Compression::WebP),
{
}

/// The codes of predictors, color models, plane layouts and sample formats, as files hold
/// them.
pub proof fn law_layouts_have_their_codes(code: u16)
    ensures
        code == 1 <==> predictor_of_code(code) == Some(Predictor::Identity),
        code == 2 <==> predictor_of_code(code) == Some(Predictor::Horizontal),
        code == 3 <==> predictor_of_code(code) == Some(Predictor::FloatingPoint),
        code == 0 <==> photometric_of_code(code) == Some(PhotometricInterpretation::MinIsWhite),
        code == 1 <==> photometric_of_code(code) == Some(PhotometricInterpretation::MinIsBlack),
        code == 2 <==> photometric_of_code(code) == Some(PhotometricInterpretation::Rgb),
        code == 3 <==> photometric_of_code(code) == Some(PhotometricInterpretation::Palette),
        code == 4 <==> photometric_of_code(code) == Some(PhotometricInterpretation::Mask),
        code == 5 <==> photometric_of_code(code) == Some(PhotometricInterpretation::Separated),
        code == 8 <==> photometric_of_code(code) == Some(PhotometricInterpretation::CieLab),
        code == 6 <==> photometric_of_code(code) == Some(PhotometricInterpretation::YCbCr),
        code == 1 <==> planar_of_code(code) == Some(PlanarConfiguration::Chunky),
        code == 2 <==> planar_of_code(code) == Some(PlanarConfiguration::Planar),
        code == 1 <==> sample_format_of_code(code) == Some(SampleFormat::Uint),
        code == 2 <==> sample_format_of_code(code) == Some(SampleFormat::Int),
        code == 3 <==> sample_format_of_code(code) == Some(SampleFormat::Float),
{
}

/// No two compressions, and no two color models, have the same name.
pub proof fn law_names_tell_layouts_apart(
    one: Compression,
    other: Compression,
    model: PhotometricInterpretation,
    another: PhotometricInterpretation,
)
    ensures
        compression_name(one) == compression_name(other) ==> one == other,
        photometric_name(model) == photometric_name(another) ==> model == another,
{
    reveal_strlit("None");
    reveal_strlit("LZW");
    reveal_strlit("OldJpeg");
    reveal_strlit("JPEG");
    reveal_strlit("Deflate");
    reveal_strlit("PackBits");
    reveal_strlit("DeflateOld");
    reveal_strlit("LERC");
    reveal_strlit("ZSTD");
    reveal_strlit("WebP");
    assert("None"@[0] == 'N' && "None"@.len() == 4 && "LZW"@.len() == 3 && "OldJpeg"@[0] == 'O'
        && "OldJpeg"@.len() == 7 && "JPEG"@[0] == 'J' && "JPEG"@.len() == 4 && "Deflate"@[0] == 'D'
        && "Deflate"@.len() == 7 && "PackBits"@.len() == 8 && "DeflateOld"@.len() == 10
        && "LERC"@[0] == 'L' && "LERC"@.len() == 4 && "ZSTD"@[0] == 'Z' && "ZSTD"@.len() == 4
        && "WebP"@[0] == 'W' && "WebP"@.len() == 4);
    reveal_strlit("MinIsWhite");
    reveal_strlit("MinIsBlack");
    reveal_strlit("Rgb");
    reveal_strlit("Palette");
    reveal_strlit("Mask");
    reveal_strlit("Separated");
    reveal_strlit("YCbCr");
    reveal_strlit("CieLab");
    assert("MinIsWhite"@.len() == 10 && "MinIsWhite"@[5] == 'W' && "MinIsBlack"@.len() == 10
        && "MinIsBlack"@[5] == 'B' && "Rgb"@.len() == 3 && "Palette"@.len() == 7 && "Mask"@.len()
        == 4 && "Separated"@.len() == 9 && "YCbCr"@.len() == 5 && "CieLab"@.len() == 6);
}

} // verus!
