//! What is known of a JPEG 2000 image before it is decoded.
use crate::bands::{bands_exist, bands_positive};
use crate::jp2::decode::{jp2_header, read_header, ImageHeader, Jp2Error};
use crate::tiff::{PhotometricInterpretation, SampleFormat};
use vstd::prelude::*;

verus! {

/// Size and sample layout of an image.
#[derive(Debug, Clone, Copy, PartialEq, Eq, Structural)]
pub struct Jp2Raster {
    pub width: u32,
    pub height: u32,
    pub bands: u32,
    pub bits_per_sample: u8,
    pub sample_format: SampleFormat,
    pub photometric: PhotometricInterpretation,
}

/// The first way in which a component differs from the first one, from `from` on.
pub open spec fn first_difference(components: Seq<(u32, bool)>, from: int) -> Option<Jp2Error>
    decreases components.len() - from,
{
    if from < 0 || from >= components.len() {
        None
    } else if components[from].0 as u8 != components[0].0 as u8 {
        Some(Jp2Error::MixedBitDepth)
    } else if components[from].1 != components[0].1 {
        Some(Jp2Error::MixedSignedness)
    } else {
        first_difference(components, from + 1)
    }
}

/// The layout that a header describes. All components share depth and signedness, and
/// the depth is 8, 12 or 16 bits.
pub open spec fn raster_of_header(header: (u32, u32, Seq<(u32, bool)>)) -> Result<
    Jp2Raster,
    Jp2Error,
> {
    let components = header.2;
    if components.len() == 0 {
        Err(Jp2Error::NoComponents)
    } else {
        let bits = components[0].0 as u8;
        match first_difference(components, 0) {
            Some(error) => Err(error),
            None => if bits != 8 && bits != 12 && bits != 16 {
                Err(Jp2Error::UnsupportedBitDepth { bits })
            } else {
                Ok(
                    Jp2Raster {
                        width: header.0,
                        height: header.1,
                        bands: components.len() as u32,
                        bits_per_sample: bits,
                        sample_format: if components[0].1 {
                            SampleFormat::Int
                        } else {
                            SampleFormat::Uint
                        },
                        photometric: if components.len() as u32 == 3 || components.len() as u32
                            == 4 {
                            PhotometricInterpretation::Rgb
                        } else {
                            PhotometricInterpretation::MinIsBlack
                        },
                    },
                )
            },
        }
    }
}

/// The layout that a header describes.
pub fn raster_from_header(header: &ImageHeader) -> (result: Result<Jp2Raster, Jp2Error>)
    ensures
        result == raster_of_header(header@),
{
    let count: usize = header.components.len();
    if count == 0 {
        return Err(Jp2Error::NoComponents);
    }
    let bits: u8 = #[verifier::truncate]
    (header.components[0].0 as u8);
    let signed: bool = header.components[0].1;
    let mut i: usize = 0;
    while i < count
        invariant
            i <= count,
            count == header.components@.len(),
            count > 0,
            bits == header.components@[0].0 as u8,
            signed == header.components@[0].1,
            first_difference(header.components@, 0) == first_difference(
                header.components@,
                i as int,
            ),
        decreases count - i,
    {
        let other: u8 = #[verifier::truncate]
        (header.components[i].0 as u8);
        if other != bits {
            return Err(Jp2Error::MixedBitDepth);
        }
        if header.components[i].1 != signed {
            return Err(Jp2Error::MixedSignedness);
        }
        i = i + 1;
    }
    if bits != 8 && bits != 12 && bits != 16 {
        return Err(Jp2Error::UnsupportedBitDepth { bits });
    }
    let bands: u32 = #[verifier::truncate]
    (count as u32);
    Ok(
        Jp2Raster {
            width: header.width,
            height: header.height,
            bands,
            bits_per_sample: bits,
            sample_format: if signed {
                SampleFormat::Int
            } else {
                SampleFormat::Uint
            },
            photometric: if bands == 3 || bands == 4 {
                PhotometricInterpretation::Rgb
            } else {
                PhotometricInterpretation::MinIsBlack
            },
        },
    )
}

/// The layout of an image.
pub open spec fn raster_of(data: Seq<u8>) -> Result<Jp2Raster, Jp2Error> {
    match jp2_header(data) {
        None => Err(Jp2Error::UnreadableHeader),
        Some(header) => raster_of_header(header),
    }
}

impl Jp2Raster {
    /// Reads the layout of an image from its bytes.
    pub fn open(data: &[u8]) -> (result: Result<Jp2Raster, Jp2Error>)
        ensures
            result == raster_of(data@),
    {
        match read_header(data) {
            None => Err(Jp2Error::UnreadableHeader),
            Some(header) => raster_from_header(&header),
        }
    }

    /// The layout with only the selected bands, counted from one.
    pub fn with_band_subset(&self, bands: &[usize]) -> (result: Result<Jp2Raster, Jp2Error>)
        ensures
            match result {
                Ok(subset) => {
                    &&& bands@.len() > 0
                    &&& bands_positive(bands@)
                    &&& bands_exist(bands@, self.bands as nat)
                    &&& subset == (Jp2Raster { bands: bands@.len() as u32, ..*self })
                },
                Err(error) => if bands@.len() == 0 {
                    error == Jp2Error::NoBandSelected
                } else {
                    error matches Jp2Error::BandOutOfRange { band } && exists|i: int|
                        0 <= i < bands@.len() && band == #[trigger] bands@[i] && (band == 0 || band
                            > self.bands) && bands_positive(bands@.take(i)) && bands_exist(
                            bands@.take(i),
                            self.bands as nat,
                        )
                },
            },
    {
        if bands.len() == 0 {
            return Err(Jp2Error::NoBandSelected);
        }
        let mut i: usize = 0;
        while i < bands.len()
            invariant
                i <= bands@.len(),
                bands@.len() > 0,
                forall|j: int|
                    0 <= j < i ==> 1 <= #[trigger] bands@[j] <= self.bands,
            decreases bands@.len() - i,
        {
            let band: usize = bands[i];
            if band == 0 || band > self.bands as usize {
                proof {
                    let front = bands@.take(i as int);
                    assert forall|j: int| 0 <= j < front.len() implies 1 <= (#[trigger] front[j])
                        <= self.bands by {
                        assert(front[j] == bands@[j]);
                    }
                    assert(band == bands@[i as int]);
                }
                return Err(Jp2Error::BandOutOfRange { band });
            }
            i = i + 1;
        }
        let count: u32 = #[verifier::truncate]
        (bands.len() as u32);
        let mut subset: Jp2Raster = *self;
        subset.bands = count;
        Ok(subset)
    }
}

/// Reads the layout of an image from its bytes.
pub fn header_from_bytes(data: &[u8]) -> (result: Result<Jp2Raster, Jp2Error>)
    ensures
        result == raster_of(data@),
{
    Jp2Raster::open(data)
}

/// A header that is accepted keeps its size, has a band for each component, and all components
/// are like the first one in depth and sign. Three or four bands are colors.
pub proof fn law_accepted_headers_are_uniform(
    header: (u32, u32, Seq<(u32, bool)>),
    raster: Jp2Raster,
    i: int,
)
    requires
        raster_of_header(header) == Ok::<Jp2Raster, Jp2Error>(raster),
        0 <= i < header.2.len() <= u32::MAX,
    ensures
        raster.width == header.0,
        raster.height == header.1,
        raster.bands == header.2.len(),
        header.2[i].0 <= u8::MAX ==> header.2[i].0 == raster.bits_per_sample,
        header.2[i].1 <==> raster.sample_format is Int,
        !header.2[i].1 <==> raster.sample_format is Uint,
        raster.bits_per_sample == 8 || raster.bits_per_sample == 12 || raster.bits_per_sample
            == 16,
        raster.photometric is Rgb <==> raster.bands == 3 || raster.bands == 4,
        !(raster.photometric is Rgb) ==> raster.photometric is MinIsBlack,
{
    lemma_no_difference(header.2, 0, i);
}

/// A header whose components all have the same supported depth and the same sign is accepted.
pub proof fn law_uniform_headers_are_accepted(header: (u32, u32, Seq<(u32, bool)>))
    requires
        header.2.len() > 0,
        forall|i: int| 0 <= i < header.2.len() ==> #[trigger] header.2[i] == header.2[0],
        header.2[0].0 == 8 || header.2[0].0 == 12 || header.2[0].0 == 16,
    ensures
        raster_of_header(header) is Ok,
{
    lemma_uniform(header.2, 0);
}

/// A header without components, or with components that differ, is refused, with the reason
/// of the first component that differs from the first.
pub proof fn law_differing_headers_are_refused(header: (u32, u32, Seq<(u32, bool)>), i: int)
    requires
        0 <= i < header.2.len(),
        forall|k: int| 0 <= k < i ==> #[trigger] header.2[k] == header.2[0],
        header.2[0].0 <= u8::MAX,
        header.2[i].0 <= u8::MAX,
    ensures
        header.2[i].0 != header.2[0].0 ==> raster_of_header(header) == Err::<Jp2Raster, Jp2Error>(
            Jp2Error::MixedBitDepth,
        ),
        header.2[i].0 == header.2[0].0 && header.2[i].1 != header.2[0].1 ==> raster_of_header(
            header,
        ) == Err::<Jp2Raster, Jp2Error>(Jp2Error::MixedSignedness),
{
    lemma_differs_first_at(header.2, 0, i);
}

proof fn lemma_no_difference(components: Seq<(u32, bool)>, from: int, i: int)
    requires
        0 <= from <= i < components.len(),
        first_difference(components, from) is None,
    ensures
        components[i].0 as u8 == components[0].0 as u8,
        components[i].1 == components[0].1,
    decreases i - from,
{
    if from < i {
        lemma_no_difference(components, from + 1, i);
    }
}

proof fn lemma_uniform(components: Seq<(u32, bool)>, from: int)
    requires
        0 <= from,
        forall|i: int| 0 <= i < components.len() ==> #[trigger] components[i] == components[0],
    ensures
        first_difference(components, from) is None,
    decreases components.len() - from,
{
    if from < components.len() {
        lemma_uniform(components, from + 1);
    }
}

proof fn lemma_differs_first_at(components: Seq<(u32, bool)>, from: int, i: int)
    requires
        0 <= from <= i < components.len(),
        forall|k: int| 0 <= k < i ==> #[trigger] components[k] == components[0],
        components[0].0 <= u8::MAX,
        components[i].0 <= u8::MAX,
    ensures
        components[i].0 != components[0].0 ==> first_difference(components, from) == Some(
            Jp2Error::MixedBitDepth,
        ),
        components[i].0 == components[0].0 && components[i].1 != components[0].1
            ==> first_difference(components, from) == Some(Jp2Error::MixedSignedness),
    decreases i - from,
{
    if from < i {
        assert(components[from] == components[0]);
        lemma_differs_first_at(components, from + 1, i);
    }
}

} // verus!
