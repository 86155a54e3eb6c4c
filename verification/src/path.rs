//! How a conversion is carried out.
use vstd::prelude::*;

verus! {

/// The strategy that a conversion took.
#[derive(Debug, Clone, Copy, PartialEq, Eq, Structural)]
pub enum ConvertPath {
    RemuxIdentity,
    TranscodeRemux,
    HybridCropRemux,
    PlanarBandPermute,
    ChunkyBandPermute,
    StripEncode,
    TiledEncode,
}

impl ConvertPath {
    /// The name under which a conversion reports its strategy.
    pub fn label(self) -> (label: &'static str)
        ensures
            label@ == (match self {
                ConvertPath::RemuxIdentity => "remux-identity"@,
                ConvertPath::TranscodeRemux => "transcode-remux"@,
                ConvertPath::HybridCropRemux => "hybrid-crop-remux"@,
                ConvertPath::PlanarBandPermute => "planar-band-permute"@,
                ConvertPath::ChunkyBandPermute => "chunky-band-permute"@,
                ConvertPath::StripEncode => "strip-encode"@,
                ConvertPath::TiledEncode => "tiled-encode"@,
            }),
    {
        match self {
            ConvertPath::RemuxIdentity => "remux-identity",
            ConvertPath::TranscodeRemux => "transcode-remux",
            ConvertPath::HybridCropRemux => "hybrid-crop-remux",
            ConvertPath::PlanarBandPermute => "planar-band-permute",
            ConvertPath::ChunkyBandPermute => "chunky-band-permute",
            ConvertPath::StripEncode => "strip-encode",
            ConvertPath::TiledEncode => "tiled-encode",
        }
    }
}

} // verus!
