//! Rewriting a tiled file without decoding more pixels than needed: which strategy fits,
//! which blocks are copied, and how the output is put together.
use crate::arith::{ceil_div, div_ceil, lemma_grid_index, lemma_mul_bound, max_of};
use crate::bands::{
    bands_exist, bands_positive, band_seq, first_missing, identity_bands, is_identity_bands,
    lemma_bands_exist_extend,
};
use crate::bytes::copy_range;
use crate::cog::builder::{
    configure_cog, configure_cog_with_layer_sizes, configure_cog_with_layer_sizes_masked,
    configure_cog_with_levels, CogLayout, OverviewStorage,
};
use crate::cog::grid::{auto_overview_levels, is_auto_pyramid};
use crate::cog::options::{overview_levels, CogOutputOptions};
use crate::crop::WriteWindow;
use crate::hybrid_crop::{can_crop_overviews, cropped_from_overviews};
use crate::input::profile::{
    compression_in, compression_matches_ifd, has_tiles_of, ifd_planar, ifd_sample_format,
    planar_in, sample_format_in, tiles_are, IfdInfo, RasterProfile, SourceInfo,
    UnsupportedSampleFormat,
};
use crate::path::ConvertPath;
use crate::spool::{block_views, BlockView, CompressedBlock};
use crate::tiff::{kind_of, sample_kind, PlanarConfiguration, SampleKind};
use vstd::arithmetic::div_mod::lemma_fundamental_div_mod;
use vstd::prelude::*;

verus! {

/// The decimation factor of each overview of a source, judged by the widths; at least
/// one.
pub open spec fn overview_factor(source: SourceInfo, overview: int) -> u32 {
    max_of(
        source.base().width as int / max_of(source.overviews@[overview].width as int, 1),
        1,
    ) as u32
}

/// The decimation factors of the overviews of a source.
pub open spec fn overview_factors(source: SourceInfo) -> Seq<u32> {
    Seq::new(source.overviews@.len(), |i: int| overview_factor(source, i))
}

/// The decimation factors of the overviews of a source.
pub fn input_overview_levels(source: &SourceInfo) -> (levels: Vec<u32>)
    requires
        source.well_formed(),
    ensures
        levels@ == overview_factors(*source),
{
    let base_w: u32 = source.ifds[source.base_ifd].width;
    let mut levels: Vec<u32> = Vec::new();
    let mut index: usize = 0;
    while index < source.overviews.len()
        invariant
            index <= source.overviews@.len(),
            base_w == source.base().width,
            levels@.len() == index,
            forall|i: int| 0 <= i < index ==> #[trigger] levels@[i] == overview_factor(*source, i),
        decreases source.overviews@.len() - index,
    {
        let width: u32 = source.overviews[index].width;
        let ov_w: u32 = if width < 1 {
            1
        } else {
            width
        };
        let quotient: u32 = base_w / ov_w;
        levels.push(
            if quotient < 1 {
                1
            } else {
                quotient
            },
        );
        index = index + 1;
    }
    levels
}

/// Width and height of each overview of a source.
pub fn input_overview_layer_sizes(source: &SourceInfo) -> (sizes: Vec<(u32, u32)>)
    ensures
        sizes@ == source.overviews@.map_values(|ifd: IfdInfo| (ifd.width, ifd.height)),
{
    let mut sizes: Vec<(u32, u32)> = Vec::new();
    let mut index: usize = 0;
    while index < source.overviews.len()
        invariant
            index <= source.overviews@.len(),
            sizes@.len() == index,
            forall|i: int|
                0 <= i < index ==> #[trigger] sizes@[i] == (
                    source.overviews@[i].width,
                    source.overviews@[i].height,
                ),
        decreases source.overviews@.len() - index,
    {
        let ifd: IfdInfo = source.overviews[index];
        sizes.push((ifd.width, ifd.height));
        index = index + 1;
    }
    sizes
}

/// The directory of a layer: the full-size image is layer zero, the overviews follow.
pub open spec fn layer_of(source: SourceInfo, layer: int) -> Option<IfdInfo> {
    if layer == 0 {
        Some(source.base())
    } else if layer - 1 < source.overviews@.len() {
        Some(source.overviews@[layer - 1])
    } else {
        None
    }
}

/// The directory of a layer; none behind the last overview.
pub fn layer_ifd(source: &SourceInfo, layer_index: usize) -> (ifd: Option<IfdInfo>)
    requires
        source.well_formed(),
    ensures
        ifd == layer_of(*source, layer_index as int),
{
    if layer_index == 0 {
        Some(source.ifds[source.base_ifd])
    } else if layer_index - 1 < source.overviews.len() {
        Some(source.overviews[layer_index - 1])
    } else {
        None
    }
}

/// The first position of a factor, from `from` on.
pub open spec fn factor_position(factors: Seq<u32>, factor: u32, from: int) -> Option<int>
    decreases factors.len() - from,
{
    if from < 0 || from >= factors.len() {
        None
    } else if factors[from] == factor {
        Some(from)
    } else {
        factor_position(factors, factor, from + 1)
    }
}

/// The position of a factor is one where it stands.
pub proof fn lemma_factor_position(factors: Seq<u32>, factor: u32, from: int)
    ensures
        factor_position(factors, factor, from) matches Some(at) ==> from <= at < factors.len()
            && factors[at] == factor,
    decreases factors.len() - from,
{
    if 0 <= from < factors.len() && factors[from] != factor {
        lemma_factor_position(factors, factor, from + 1);
    }
}

/// The first position of a factor.
pub fn find_factor(factors: &[u32], factor: u32) -> (position: Option<usize>)
    ensures
        match factor_position(factors@, factor, 0) {
            Some(expected) => position matches Some(found) && found == expected && found
                < factors@.len() && factors@[found as int] == factor,
            None => position is None,
        },
{
    let mut i: usize = 0;
    while i < factors.len()
        invariant
            i <= factors@.len(),
            factor_position(factors@, factor, 0) == factor_position(factors@, factor, i as int),
        decreases factors@.len() - i,
    {
        if factors[i] == factor {
            return Some(i);
        }
        i = i + 1;
    }
    None
}

/// Whether a factor is the first among the least of the first `end` that are no smaller
/// than `target`.
pub open spec fn is_best_factor(factors: Seq<u32>, target: u32, end: int, best: int) -> bool {
    &&& 0 <= best < end
    &&& factors[best] >= target
    &&& forall|i: int|
        0 <= i < end && (#[trigger] factors[i]) >= target ==> factors[best] <= factors[i] && (
        factors[best] == factors[i] ==> best <= i)
}

/// Whether all of the first `end` factors are smaller than `target`.
pub open spec fn all_smaller(factors: Seq<u32>, target: u32, end: int) -> bool {
    forall|i: int| 0 <= i < end ==> (#[trigger] factors[i]) < target
}

/// The overview with the least factor that is no smaller than `target_level`, the first
/// one of those with the same factor.
pub fn best_source_overview(source_factors: &[u32], target_level: u32) -> (best: Option<
    (usize, u32),
>)
    ensures
        match best {
            Some(found) => {
                &&& is_best_factor(
                    source_factors@,
                    target_level,
                    source_factors@.len() as int,
                    found.0 as int,
                )
                &&& found.1 == source_factors@[found.0 as int]
            },
            None => all_smaller(source_factors@, target_level, source_factors@.len() as int),
        },
{
    let mut best: Option<(usize, u32)> = None;
    let mut i: usize = 0;
    while i < source_factors.len()
        invariant
            i <= source_factors@.len(),
            match best {
                Some(found) => {
                    &&& is_best_factor(source_factors@, target_level, i as int, found.0 as int)
                    &&& found.1 == source_factors@[found.0 as int]
                },
                None => all_smaller(source_factors@, target_level, i as int),
            },
        decreases source_factors@.len() - i,
    {
        let factor: u32 = source_factors[i];
        if factor >= target_level {
            let better: bool = match best {
                Some(found) => factor < found.1,
                None => true,
            };
            if better {
                best = Some((i, factor));
            }
        }
        i = i + 1;
    }
    best
}

/// Which layer of the source an overview of the output is made from.
#[derive(Debug, Clone, Copy, PartialEq, Eq, Structural)]
pub struct ReadSource {
    /// The layer; zero is the full-size image.
    pub layer: usize,
    /// The decimation factor of the layer.
    pub factor: u32,
    /// How much it is reduced after reading.
    pub downsample: usize,
}

/// Whether a factor is the first among the largest of the first `end` that are greater than
/// one and divide `level`.
pub open spec fn is_divisor(factors: Seq<u32>, level: u32, end: int, best: int) -> bool {
    &&& 0 <= best < end
    &&& divides(factors[best], level)
    &&& forall|i: int|
        0 <= i < end && divides(#[trigger] factors[i], level) ==> factors[best] >= factors[i] && (
        factors[best] == factors[i] ==> best <= i)
}

/// Whether a factor reduces, and `level` is a multiple of it.
pub open spec fn divides(factor: u32, level: u32) -> bool {
    factor > 1 && level % factor == 0
}

/// Whether none of the first `end` factors divides `level`.
pub open spec fn none_divides(factors: Seq<u32>, level: u32, end: int) -> bool {
    forall|i: int| 0 <= i < end ==> !divides(#[trigger] factors[i], level)
}

/// The overview with the largest factor that divides `level`, the first one of those with
/// the same factor.
pub fn find_divisor(factors: &[u32], level: u32) -> (best: Option<usize>)
    ensures
        match best {
            Some(found) => is_divisor(factors@, level, factors@.len() as int, found as int),
            None => none_divides(factors@, level, factors@.len() as int),
        },
{
    let mut best: Option<usize> = None;
    let mut i: usize = 0;
    while i < factors.len()
        invariant
            i <= factors@.len(),
            match best {
                Some(found) => is_divisor(factors@, level, i as int, found as int),
                None => none_divides(factors@, level, i as int),
            },
        decreases factors@.len() - i,
    {
        let factor: u32 = factors[i];
        if factor > 1 && level % factor == 0 {
            let better: bool = match best {
                Some(found) => factor > factors[found],
                None => true,
            };
            if better {
                best = Some(i);
            }
        }
        i = i + 1;
    }
    best
}

/// Whether an overview with factor `level` is made from `read`: from the overview of the
/// source with this factor as it is. Where the source has none, but has a coarser one, it is
/// made from the coarsest one whose factor divides `level`. Else, and beyond the coarsest
/// overview of the source, it is made from the full-size image. What is left of the factor
/// is reduced after reading.
pub open spec fn is_read_source(source: SourceInfo, level: u32, read: ReadSource) -> bool {
    let factors = overview_factors(source);
    match factor_position(factors, level, 0) {
        Some(index) => read == (ReadSource {
            layer: (index + 1) as usize,
            factor: level,
            downsample: 1,
        }),
        None => if all_smaller(factors, level, factors.len() as int) || none_divides(
            factors,
            level,
            factors.len() as int,
        ) {
            read == (ReadSource { layer: 0, factor: 1, downsample: level as usize })
        } else {
            &&& is_divisor(factors, level, factors.len() as int, read.layer - 1)
            &&& read.factor == factors[read.layer - 1]
            &&& read.downsample == level as int / read.factor as int
        },
    }
}

/// Which layer of the source an overview of the output is made from.
pub fn resolve_overview_read_source(source: &SourceInfo, level: u32) -> (read: ReadSource)
    requires
        source.well_formed(),
        level > 0,
    ensures
        is_read_source(*source, level, read),
        read.factor * read.downsample == level,
        read.layer == 0 ==> read.factor == 1,
        read.layer > 0 ==> read.layer <= source.overviews@.len() && read.factor
            == overview_factors(*source)[read.layer - 1],
{
    let factors: Vec<u32> = input_overview_levels(source);
    let count: usize = factors.len();
    if let Some(index) = find_factor(&factors, level) {
        return ReadSource { layer: index + 1, factor: level, downsample: 1 };
    }
    if best_source_overview(&factors, level).is_none() {
        return ReadSource { layer: 0, factor: 1, downsample: level as usize };
    }
    if let Some(index) = find_divisor(&factors, level) {
        let factor: u32 = factors[index];
        assert(divides(factors@[index as int], level));
        proof {
            lemma_fundamental_div_mod(level as int, factor as int);
        }
        return ReadSource { layer: index + 1, factor, downsample: (level / factor) as usize };
    }
    ReadSource { layer: 0, factor: 1, downsample: level as usize }
}

/// Whatever layer an overview is made from, the reduction that is left and the layer's own
/// factor make up the overview's factor.
pub proof fn law_reductions_make_up_level(source: SourceInfo, level: u32, read: ReadSource)
    requires
        level > 0,
        source.overviews@.len() <= usize::MAX,
        is_read_source(source, level, read),
    ensures
        read.factor * read.downsample == level,
        read.layer == 0 ==> read.factor == 1,
        factor_position(overview_factors(source), level, 0) is Some ==> read.factor == level
            && read.downsample == 1,
        all_smaller(
            overview_factors(source),
            level,
            overview_factors(source).len() as int,
        ) ==> read.layer == 0 && read.downsample == level,
{
    let factors = overview_factors(source);
    lemma_factor_position(factors, level, 0);
    if factor_position(factors, level, 0) is None && !all_smaller(
        factors,
        level,
        factors.len() as int,
    ) && !none_divides(factors, level, factors.len() as int) {
        assert(divides(factors[read.layer - 1], level));
        lemma_fundamental_div_mod(level as int, read.factor as int);
        assert(level as int == read.factor as int * (level as int / read.factor as int));
    } else if factor_position(factors, level, 0) is None {
        assert(read.factor * read.downsample == level) by (nonlinear_arith)
            requires
                read.factor == 1,
                read.downsample == level,
        ;
    } else {
        assert(read.factor * read.downsample == level) by (nonlinear_arith)
            requires
                read.factor == level,
                read.downsample == 1,
        ;
    }
}

/// Whether every overview of the source has square tiles of the given size.
pub open spec fn overview_tiles_fit(source: SourceInfo, blocksize: u32) -> bool {
    forall|i: int|
        0 <= i < source.overviews@.len() ==> has_tiles_of(#[trigger] source.overviews@[i], blocksize)
}

/// Whether every overview of the source has square tiles of the given size.
pub fn overview_tiles_compatible(source: &SourceInfo, blocksize: u32) -> (compatible: bool)
    ensures
        compatible == overview_tiles_fit(*source, blocksize),
{
    let mut index: usize = 0;
    while index < source.overviews.len()
        invariant
            index <= source.overviews@.len(),
            forall|i: int|
                0 <= i < index ==> has_tiles_of(#[trigger] source.overviews@[i], blocksize),
        decreases source.overviews@.len() - index,
    {
        if !tiles_are(&source.overviews[index], blocksize) {
            return false;
        }
        index = index + 1;
    }
    true
}

/// Whether the blocks of a source fit the output as they are laid out: tiles of the
/// output's size, the output's order of bands and sample format, and no overviews where
/// the output has none. An unknown sample format is an error, unless tiles or bands do
/// not fit anyway.
pub open spec fn layout_fits(
    source: SourceInfo,
    profile: RasterProfile,
    opts: CogOutputOptions,
) -> Result<bool, UnsupportedSampleFormat> {
    let base = source.base();
    if !has_tiles_of(base, opts.blocksize) || planar_in(base) != profile.planar_configuration {
        Ok(false)
    } else {
        match sample_format_in(base) {
            None => Err(UnsupportedSampleFormat { code: base.sample_format->0 }),
            Some(format) => Ok(
                format == profile.sample.sample_format && !(opts.no_overviews
                    && source.overviews@.len() > 0),
            ),
        }
    }
}

/// Whether the blocks of a source fit the output as they are laid out.
pub fn layout_compatible(
    source: &SourceInfo,
    profile: &RasterProfile,
    opts: &CogOutputOptions,
) -> (result: Result<bool, UnsupportedSampleFormat>)
    requires
        source.well_formed(),
    ensures
        result == layout_fits(*source, *profile, *opts),
{
    let base: IfdInfo = source.ifds[source.base_ifd];
    if !tiles_are(&base, opts.blocksize) {
        return Ok(false);
    }
    if ifd_planar(&base) != profile.planar_configuration {
        return Ok(false);
    }
    match ifd_sample_format(&base) {
        Err(error) => {
            return Err(error);
        },
        Ok(format) => {
            if format != profile.sample.sample_format {
                return Ok(false);
            }
        },
    }
    if opts.no_overviews {
        if source.overviews.len() > 0 {
            return Ok(false);
        }
    }
    Ok(true)
}

/// Whether samples of the output have a machine type.
pub open spec fn encodable(profile: RasterProfile) -> bool {
    kind_of(profile.sample.bits_per_sample, profile.sample.sample_format) is Some
}

fn is_encodable(profile: &RasterProfile) -> (supported: bool)
    ensures
        supported == encodable(*profile),
{
    sample_kind(profile.sample.bits_per_sample, profile.sample.sample_format).is_some()
}

/// The strategy for a source with strips, which is always encoded anew: it cannot be
/// used for other bands than all in their order, or for samples without a machine type.
pub open spec fn strip_path(
    source: SourceInfo,
    profile: RasterProfile,
    bands: Option<Seq<usize>>,
) -> Option<ConvertPath> {
    if bands is Some && !identity_bands(bands->0, source.band_count as nat) {
        None
    } else if encodable(profile) {
        Some(ConvertPath::StripEncode)
    } else {
        None
    }
}

/// The strategy for a source with strips.
pub fn try_strip_to_tiled_remux(
    source: &SourceInfo,
    profile: &RasterProfile,
    bands: Option<&[usize]>,
) -> (path: Option<ConvertPath>)
    ensures
        path == strip_path(*source, *profile, band_seq(bands)),
{
    if let Some(selected) = bands {
        if !is_identity_bands(selected, source.band_count as usize) {
            return None;
        }
    }
    if is_encodable(profile) {
        Some(ConvertPath::StripEncode)
    } else {
        None
    }
}

/// Whether all layers of a source can be decoded and compressed anew one by one: it has
/// overviews, and its samples have a machine type.
pub open spec fn transcodable(source: SourceInfo, profile: RasterProfile) -> bool {
    source.overviews@.len() > 0 && encodable(profile)
}

/// Whether all layers of a source can be decoded and compressed anew one by one.
pub fn try_transcode_remux(source: &SourceInfo, profile: &RasterProfile) -> (possible: bool)
    ensures
        possible == transcodable(*source, *profile),
{
    if source.overviews.len() == 0 {
        return false;
    }
    is_encodable(profile)
}

/// The strategy for all bands of the whole raster: blocks with the output's compression
/// are copied, those of another one compressed anew. Where overviews have tiles of
/// another size everything is compressed anew if possible.
pub open spec fn whole_path(
    source: SourceInfo,
    profile: RasterProfile,
    opts: CogOutputOptions,
) -> Option<ConvertPath> {
    if opts.compression.scheme() == compression_in(source.base()) {
        if !overview_tiles_fit(source, opts.blocksize) && transcodable(source, profile) {
            Some(ConvertPath::TranscodeRemux)
        } else {
            Some(ConvertPath::RemuxIdentity)
        }
    } else if transcodable(source, profile) {
        Some(ConvertPath::TranscodeRemux)
    } else {
        None
    }
}

fn choose_whole_path(
    source: &SourceInfo,
    profile: &RasterProfile,
    opts: &CogOutputOptions,
) -> (path: Option<ConvertPath>)
    requires
        source.well_formed(),
    ensures
        path == whole_path(*source, *profile, *opts),
{
    if compression_matches_ifd(&source.ifds[source.base_ifd], opts) {
        if overview_tiles_compatible(source, opts.blocksize) {
            return Some(ConvertPath::RemuxIdentity);
        }
        if source.overviews.len() > 0 {
            if try_transcode_remux(source, profile) {
                return Some(ConvertPath::TranscodeRemux);
            }
        }
        return Some(ConvertPath::RemuxIdentity);
    }
    if try_transcode_remux(source, profile) {
        return Some(ConvertPath::TranscodeRemux);
    }
    None
}

/// Whether a window can be cut out of the tiles of a source: the samples can be compressed
/// anew, and every overview of the output comes from an overview of the source.
pub open spec fn croppable(
    source: SourceInfo,
    profile: RasterProfile,
    opts: CogOutputOptions,
    window: WriteWindow,
) -> bool {
    encodable(profile) && exists|levels: Seq<u32>| #[trigger]
        opts.are_overview_levels(profile.width, profile.height, levels) && cropped_from_overviews(
            source,
            window,
            levels,
        )
}

/// The strategy for a source with tiles whose layout fits the output. A window is cut
/// out of the tiles, whatever the bands, or there is no strategy; else bands that are not
/// all in their order are permuted, as planes where the source holds them apart.
pub open spec fn tiled_path(
    source: SourceInfo,
    profile: RasterProfile,
    opts: CogOutputOptions,
    window: Option<WriteWindow>,
    bands: Option<Seq<usize>>,
) -> Option<ConvertPath> {
    if window is Some {
        if croppable(source, profile, opts, window->0) {
            Some(ConvertPath::HybridCropRemux)
        } else {
            None
        }
    } else if bands is None || identity_bands(bands->0, source.band_count as nat) {
        whole_path(source, profile, opts)
    } else if planar_in(source.base()) == PlanarConfiguration::Planar {
        Some(ConvertPath::PlanarBandPermute)
    } else if encodable(profile) {
        Some(ConvertPath::ChunkyBandPermute)
    } else {
        None
    }
}

/// The strategy that rewrites a source without decoding it as a whole; none where there
/// is no such strategy.
pub open spec fn remux_path(
    source: SourceInfo,
    profile: RasterProfile,
    opts: CogOutputOptions,
    window: Option<WriteWindow>,
    bands: Option<Seq<usize>>,
) -> Result<Option<ConvertPath>, UnsupportedSampleFormat> {
    if !source.base().tiled {
        Ok(strip_path(source, profile, bands))
    } else {
        match layout_fits(source, profile, opts) {
            Err(error) => Err(error),
            Ok(false) => Ok(None),
            Ok(true) => Ok(tiled_path(source, profile, opts, window, bands)),
        }
    }
}

/// The window behind a reference.
pub open spec fn window_of(window: Option<&WriteWindow>) -> Option<WriteWindow> {
    match window {
        Some(w) => Some(*w),
        None => None,
    }
}

/// Whether every overview of a cropped output comes from an overview of the source.
fn try_remux_crop(
    source: &SourceInfo,
    profile: &RasterProfile,
    opts: &CogOutputOptions,
    window: &WriteWindow,
) -> (cropped: bool)
    requires
        source.well_formed(),
        encodable(*profile),
        opts.lists_levels(),
    ensures
        cropped == croppable(*source, *profile, *opts, *window),
{
    let levels: Vec<u32> = overview_levels(opts, profile.width, profile.height);
    proof {
        opts.lemma_one_pyramid(profile.width, profile.height, levels@);
    }
    can_crop_overviews(source, window, levels.as_slice())
}

/// The strategy that rewrites a source without decoding it as a whole.
pub fn try_remux_cog(
    source: &SourceInfo,
    profile: &RasterProfile,
    opts: &CogOutputOptions,
    window: Option<&WriteWindow>,
    bands: Option<&[usize]>,
) -> (result: Result<Option<ConvertPath>, UnsupportedSampleFormat>)
    requires
        source.well_formed(),
        window is Some && source.base().tiled && layout_fits(*source, *profile, *opts) == Ok::<
            bool,
            UnsupportedSampleFormat,
        >(true) && encodable(*profile) ==> opts.lists_levels(),
    ensures
        result == remux_path(*source, *profile, *opts, window_of(window), band_seq(bands)),
{
    let base: IfdInfo = source.ifds[source.base_ifd];
    if !base.tiled {
        return Ok(try_strip_to_tiled_remux(source, profile, bands));
    }
    match layout_compatible(source, profile, opts) {
        Err(error) => {
            return Err(error);
        },
        Ok(compatible) => {
            if !compatible {
                return Ok(None);
            }
        },
    }
    if let Some(window) = window {
        if is_encodable(profile) && try_remux_crop(source, profile, opts, window) {
            return Ok(Some(ConvertPath::HybridCropRemux));
        }
        return Ok(None);
    }
    if let Some(selected) = bands {
        if !is_identity_bands(selected, source.band_count as usize) {
            if ifd_planar(&base) == PlanarConfiguration::Planar {
                return Ok(Some(ConvertPath::PlanarBandPermute));
            }
            if is_encodable(profile) {
                return Ok(Some(ConvertPath::ChunkyBandPermute));
            }
            return Ok(None);
        }
    }
    Ok(choose_whole_path(source, profile, opts))
}

/// Blocks are copied unchanged only from a tiled image whose tiles have the output's
/// size, compression and sample format, and only for all bands of the whole raster.
pub proof fn law_copied_blocks_fit_output(
    source: SourceInfo,
    profile: RasterProfile,
    opts: CogOutputOptions,
    window: Option<WriteWindow>,
    bands: Option<Seq<usize>>,
)
    ensures
        remux_path(source, profile, opts, window, bands) == Ok::<
            Option<ConvertPath>,
            UnsupportedSampleFormat,
        >(Some(ConvertPath::RemuxIdentity)) ==> {
            &&& source.base().tiled
            &&& has_tiles_of(source.base(), opts.blocksize)
            &&& compression_in(source.base()) == opts.compression.scheme()
            &&& sample_format_in(source.base()) == Some(profile.sample.sample_format)
            &&& planar_in(source.base()) == profile.planar_configuration
            &&& window is None
            &&& bands is None || identity_bands(bands->0, source.band_count as nat)
        },
{
}

/// A strategy that compresses pixels anew is taken only for samples that have a machine
/// type; a window is always cut out, and never copied as a whole.
pub proof fn law_encoding_strategies_need_sample_kind(
    source: SourceInfo,
    profile: RasterProfile,
    opts: CogOutputOptions,
    window: Option<WriteWindow>,
    bands: Option<Seq<usize>>,
)
    ensures
        remux_path(source, profile, opts, window, bands) matches Ok(Some(path)) ==> {
            &&& path != ConvertPath::RemuxIdentity && path != ConvertPath::PlanarBandPermute
                ==> encodable(profile)
            &&& window is Some ==> path == ConvertPath::StripEncode || path
                == ConvertPath::HybridCropRemux
        },
{
}

/// Why the planes of a layer cannot be permuted.
#[derive(Debug, Clone, Copy, PartialEq, Eq, Structural)]
pub enum PermuteError {
    UnexpectedBlockCount,
    BandOutOfRange { band: usize },
}

/// The tile size of a directory, 256 where it does not say.
pub open spec fn plane_tile_size(ifd: IfdInfo) -> nat {
    match ifd.tile_width {
        Some(size) => size as nat,
        None => 256,
    }
}

/// How many tiles one plane of a directory has.
pub open spec fn tiles_per_plane(ifd: IfdInfo) -> nat {
    ceil_div(ifd.width as nat, plane_tile_size(ifd)) * ceil_div(
        ifd.height as nat,
        plane_tile_size(ifd),
    )
}

/// The blocks of the selected planes, plane by plane.
pub open spec fn permuted_planes(layer: Seq<BlockView>, plane: nat, bands: Seq<usize>) -> Seq<
    BlockView,
>
    decreases bands.len(),
{
    if bands.len() == 0 {
        Seq::empty()
    } else {
        permuted_planes(layer, plane, bands.drop_last()) + layer.subrange(
            (bands.last() - 1) * plane,
            (bands.last() - 1) * plane + plane,
        )
    }
}

fn copy_block(block: &CompressedBlock) -> (copy: CompressedBlock)
    ensures
        copy@ == block@,
{
    let payload: Vec<u8> = copy_range(&block.payload, 0, block.payload.len());
    assert(payload@ =~= block.payload@);
    CompressedBlock { payload, sparse: block.sparse }
}

/// Puts the planes of a layer in the order of the selected bands. The layer has to hold
/// all tiles of all planes of its directory, and the bands have to be among them.
#[verifier::rlimit(30)]
pub fn permute_planar_layer_blocks(
    layer: &[CompressedBlock],
    ifd: &IfdInfo,
    bands: &[usize],
) -> (result: Result<Vec<CompressedBlock>, PermuteError>)
    requires
        plane_tile_size(*ifd) > 0,
        bands_positive(bands@),
        tiles_per_plane(*ifd) <= usize::MAX,
        tiles_per_plane(*ifd) * ifd.samples_per_pixel <= usize::MAX,
    ensures
        if layer@.len() != tiles_per_plane(*ifd) * ifd.samples_per_pixel {
            result matches Err(PermuteError::UnexpectedBlockCount)
        } else {
            match result {
                Ok(out) => {
                    &&& bands_exist(bands@, ifd.samples_per_pixel as nat)
                    &&& block_views(out@) == permuted_planes(
                        block_views(layer@),
                        tiles_per_plane(*ifd),
                        bands@,
                    )
                },
                Err(PermuteError::BandOutOfRange { band }) => first_missing(
                    bands@,
                    ifd.samples_per_pixel as nat,
                    band,
                ),
                Err(_) => false,
            }
        },
{
    let tile_size: usize = match ifd.tile_width {
        Some(size) => size as usize,
        None => 256,
    };
    let tiles_across: usize = div_ceil(ifd.width as usize, tile_size);
    let tiles_down: usize = div_ceil(ifd.height as usize, tile_size);
    let plane: usize = tiles_across * tiles_down;
    let plane_count: usize = ifd.samples_per_pixel as usize;
    if layer.len() != plane * plane_count {
        return Err(PermuteError::UnexpectedBlockCount);
    }
    let ghost views = block_views(layer@);
    let mut out: Vec<CompressedBlock> = Vec::new();
    let mut i: usize = 0;
    assert(bands@.take(0) =~= Seq::<usize>::empty());
    assert(block_views(out@) =~= Seq::<BlockView>::empty());
    while i < bands.len()
        invariant
            i <= bands@.len(),
            views == block_views(layer@),
            layer@.len() == plane * plane_count,
            plane == tiles_per_plane(*ifd),
            plane_count == ifd.samples_per_pixel,
            plane * plane_count <= usize::MAX,
            bands_positive(bands@),
            bands_exist(bands@.take(i as int), plane_count as nat),
            block_views(out@) == permuted_planes(views, plane as nat, bands@.take(i as int)),
        decreases bands@.len() - i,
    {
        let source_plane: usize = bands[i] - 1;
        if source_plane >= plane_count {
            return Err(PermuteError::BandOutOfRange { band: bands[i] });
        }
        proof {
            lemma_plane_range(source_plane as int, plane as int, plane_count as int);
            lemma_bands_exist_extend(bands@, plane_count as nat, i as int);
        }
        let start: usize = source_plane * plane;
        let end: usize = start + plane;
        let ghost before = block_views(out@);
        let mut at: usize = start;
        assert(before + views.subrange(start as int, at as int) =~= before);
        while at < end
            invariant
                start <= at <= end <= layer@.len(),
                views == block_views(layer@),
                block_views(out@) == before + views.subrange(start as int, at as int),
            decreases end - at,
        {
            let ghost known = out@;
            out.push(copy_block(&layer[at]));
            at = at + 1;
            assert(block_views(out@) =~= block_views(known).push(views[at - 1]));
            assert(block_views(out@) =~= before + views.subrange(start as int, at as int));
        }
        proof {
            let next = bands@.take(i + 1);
            assert(next.drop_last() =~= bands@.take(i as int));
            assert(next.last() == bands@[i as int]);
            assert(source_plane * plane == start);
        }
        i = i + 1;
    }
    assert(bands@.take(i as int) =~= bands@);
    Ok(out)
}

proof fn lemma_plane_range(index: int, plane: int, count: int)
    requires
        0 <= index < count,
        0 <= plane,
    ensures
        0 <= index * plane <= index * plane + plane <= plane * count,
{
    assert(0 <= index * plane <= index * plane + plane <= plane * count) by (nonlinear_arith)
        requires
            0 <= index < count,
            0 <= plane,
    ;
}

proof fn lemma_permuted_at(layer: Seq<BlockView>, plane: nat, bands: Seq<usize>, band: int, at: int)
    requires
        bands_positive(bands),
        forall|i: int| 0 <= i < bands.len() ==> (#[trigger] bands[i]) * plane <= layer.len(),
        0 <= band < bands.len(),
        0 <= at < plane,
    ensures
        permuted_planes(layer, plane, bands).len() == bands.len() * plane,
        0 <= band * plane + at < bands.len() * plane,
        permuted_planes(layer, plane, bands)[band * plane + at] == layer[(bands[band] - 1) * plane
            + at],
    decreases bands.len(),
{
    let front = bands.drop_last();
    let last = bands.last();
    assert(last == bands[bands.len() - 1]);
    assert((last - 1) * plane + plane == last * plane) by (nonlinear_arith);
    assert((last - 1) * plane >= 0) by (nonlinear_arith)
        requires
            last >= 1,
    ;
    lemma_permuted_len(layer, plane, bands);
    lemma_permuted_len(layer, plane, front);
    assert(bands.len() * plane == front.len() * plane + plane) by (nonlinear_arith)
        requires
            bands.len() == front.len() + 1,
    ;
    lemma_grid_index(band, at, plane as int, bands.len() as int);
    if band < front.len() {
        assert forall|i: int| 0 <= i < front.len() implies (#[trigger] front[i]) * plane
            <= layer.len() by {
            assert(front[i] == bands[i]);
        }
        assert(bands_positive(front)) by {
            assert forall|i: int| 0 <= i < front.len() implies (#[trigger] front[i]) >= 1 by {
                assert(front[i] == bands[i]);
            }
        }
        lemma_permuted_at(layer, plane, front, band, at);
    }
}

proof fn lemma_permuted_len(layer: Seq<BlockView>, plane: nat, bands: Seq<usize>)
    requires
        bands_positive(bands),
        forall|i: int| 0 <= i < bands.len() ==> (#[trigger] bands[i]) * plane <= layer.len(),
    ensures
        permuted_planes(layer, plane, bands).len() == bands.len() * plane,
    decreases bands.len(),
{
    if bands.len() > 0 {
        let front = bands.drop_last();
        let last = bands.last();
        assert(last == bands[bands.len() - 1]);
        assert forall|i: int| 0 <= i < front.len() implies (#[trigger] front[i]) * plane
            <= layer.len() by {
            assert(front[i] == bands[i]);
        }
        assert forall|i: int| 0 <= i < front.len() implies (#[trigger] front[i]) >= 1 by {
            assert(front[i] == bands[i]);
        }
        lemma_permuted_len(layer, plane, front);
        assert((last - 1) * plane + plane == last * plane) by (nonlinear_arith);
        assert((last - 1) * plane >= 0) by (nonlinear_arith)
            requires
                last >= 1,
        ;
        assert(bands.len() * plane == front.len() * plane + plane) by (nonlinear_arith)
            requires
                bands.len() == front.len() + 1,
        ;
    } else {
        assert(bands.len() * plane == 0) by (nonlinear_arith)
            requires
                bands.len() == 0,
        ;
    }
}

/// Tile `at` of output plane `band` is that tile of the selected source plane.
pub proof fn law_permuted_plane_keeps_tiles(
    layer: Seq<BlockView>,
    plane: nat,
    planes: nat,
    bands: Seq<usize>,
    band: int,
    at: int,
)
    requires
        layer.len() == plane * planes,
        bands_positive(bands),
        bands_exist(bands, planes),
        0 <= band < bands.len(),
        0 <= at < plane,
    ensures
        permuted_planes(layer, plane, bands).len() == bands.len() * plane,
        permuted_planes(layer, plane, bands)[band * plane + at] == layer[(bands[band] - 1) * plane
            + at],
{
    assert forall|i: int| 0 <= i < bands.len() implies (#[trigger] bands[i]) * plane
        <= layer.len() by {
        lemma_mul_bound(bands[i] as int, plane as int, planes as int, plane as int);
        assert(planes * plane == plane * planes) by (nonlinear_arith);
    }
    lemma_permuted_at(layer, plane, bands, band, at);
}

/// All bands in their order leave a layer as it is.
pub proof fn law_identity_permutation(layer: Seq<BlockView>, plane: nat, bands: Seq<usize>)
    requires
        layer.len() == plane * bands.len(),
        identity_bands(bands, bands.len()),
    ensures
        permuted_planes(layer, plane, bands) == layer,
{
    let planes = bands.len();
    let out = permuted_planes(layer, plane, bands);
    assert forall|i: int| 0 <= i < bands.len() implies (#[trigger] bands[i]) >= 1 by {}
    assert forall|i: int| 0 <= i < bands.len() implies (#[trigger] bands[i]) <= planes by {}
    assert forall|i: int| 0 <= i < bands.len() implies (#[trigger] bands[i]) * plane
        <= layer.len() by {
        lemma_mul_bound(bands[i] as int, plane as int, planes as int, plane as int);
        assert(planes * plane == plane * planes) by (nonlinear_arith);
    }
    lemma_permuted_len(layer, plane, bands);
    assert(planes * plane == plane * planes) by (nonlinear_arith);
    assert forall|k: int| 0 <= k < layer.len() implies #[trigger] out[k] == layer[k] by {
        crate::arith::lemma_grid_split(k, plane as int, planes as int);
        let band = k / plane as int;
        let at = k % plane as int;
        law_permuted_plane_keeps_tiles(layer, plane, planes, bands, band, at);
        assert(bands[band] - 1 == band);
    }
    assert(out =~= layer);
}

/// Selecting bands of selected bands is selecting the bands that they stand for.
pub proof fn law_permutations_compose(
    layer: Seq<BlockView>,
    plane: nat,
    planes: nat,
    first: Seq<usize>,
    second: Seq<usize>,
)
    requires
        layer.len() == plane * planes,
        bands_positive(first),
        bands_exist(first, planes),
        bands_positive(second),
        bands_exist(second, first.len()),
    ensures
        permuted_planes(permuted_planes(layer, plane, first), plane, second) == permuted_planes(
            layer,
            plane,
            second.map_values(|band: usize| first[band - 1]),
        ),
{
    let middle = permuted_planes(layer, plane, first);
    let both = second.map_values(|band: usize| first[band - 1]);
    assert(planes * plane == plane * planes) by (nonlinear_arith);
    assert(first.len() * plane == plane * first.len()) by (nonlinear_arith);
    assert forall|i: int| 0 <= i < first.len() implies (#[trigger] first[i]) * plane
        <= layer.len() by {
        lemma_mul_bound(first[i] as int, plane as int, planes as int, plane as int);
    }
    lemma_permuted_len(layer, plane, first);
    assert forall|i: int| 0 <= i < second.len() implies (#[trigger] second[i]) * plane
        <= middle.len() by {
        lemma_mul_bound(second[i] as int, plane as int, first.len() as int, plane as int);
    }
    lemma_permuted_len(middle, plane, second);
    assert forall|i: int| 0 <= i < both.len() implies {
        &&& (#[trigger] both[i]) >= 1
        &&& both[i] <= planes
        &&& both[i] * plane <= layer.len()
    } by {
        let k = second[i] - 1;
        assert(both[i] == first[k]);
        lemma_mul_bound(first[k] as int, plane as int, planes as int, plane as int);
    }
    lemma_permuted_len(layer, plane, both);
    let left = permuted_planes(middle, plane, second);
    let right = permuted_planes(layer, plane, both);
    assert forall|k: int| 0 <= k < left.len() implies #[trigger] left[k] == right[k] by {
        crate::arith::lemma_grid_split(k, plane as int, second.len() as int);
        let band = k / plane as int;
        let at = k % plane as int;
        law_permuted_plane_keeps_tiles(middle, plane, first.len(), second, band, at);
        law_permuted_plane_keeps_tiles(layer, plane, planes, first, second[band] - 1, at);
        law_permuted_plane_keeps_tiles(layer, plane, planes, both, band, at);
    }
    assert(left =~= right);
}

/// The overviews of an output that has `overviews` of them: the given factors and sizes,
/// cut to this number; without factors, those of the full pyramid, cut to this number,
/// or none where there are no overviews.
pub open spec fn is_assembled_levels(
    given: Option<Seq<u32>>,
    overviews: nat,
    width: u32,
    height: u32,
    blocksize: u32,
    levels: Option<Seq<u32>>,
) -> bool {
    match given {
        Some(all) => levels == Some(cut(all, overviews)),
        None => if overviews == 0 {
            levels is None
        } else {
            levels is Some && exists|all: Seq<u32>| #[trigger]
                is_auto_pyramid(width as nat, height as nat, blocksize as nat, all) && levels->0
                    == cut(all, overviews)
        },
    }
}

/// The first `count` elements, or all where there are fewer.
pub open spec fn cut<T>(all: Seq<T>, count: nat) -> Seq<T> {
    if count <= all.len() {
        all.take(count as int)
    } else {
        all
    }
}

/// A vector as a sequence.
pub open spec fn optional_seq<T>(values: Option<Vec<T>>) -> Option<Seq<T>> {
    match values {
        Some(found) => Some(found@),
        None => None,
    }
}

/// The factors and sizes of the overviews that are written for so many layers.
pub fn remux_levels(
    profile: &RasterProfile,
    opts: &CogOutputOptions,
    layer_count: usize,
    overview_levels: Option<Vec<u32>>,
    overview_sizes: Option<Vec<(u32, u32)>>,
) -> (plan: (Option<Vec<u32>>, Option<Vec<(u32, u32)>>))
    ensures
        is_assembled_levels(
            optional_seq(overview_levels),
            max_of(layer_count - 1, 0) as nat,
            profile.width,
            profile.height,
            opts.blocksize,
            optional_seq(plan.0),
        ),
        optional_seq(plan.1) == (match overview_sizes {
            Some(sizes) => Some(cut(sizes@, max_of(layer_count - 1, 0) as nat)),
            None => None,
        }),
{
    let overviews: usize = layer_count.saturating_sub(1);
    let levels: Option<Vec<u32>> = match overview_levels {
        Some(given) => {
            let mut given: Vec<u32> = given;
            given.truncate(overviews);
            Some(given)
        },
        None => {
            if overviews > 0 {
                let mut all: Vec<u32> = auto_overview_levels(
                    profile.width,
                    profile.height,
                    opts.blocksize,
                );
                let ghost full = all@;
                all.truncate(overviews);
                assert(is_auto_pyramid(
                    profile.width as nat,
                    profile.height as nat,
                    opts.blocksize as nat,
                    full,
                ));
                assert(all@ =~= cut(full, overviews as nat));
                Some(all)
            } else {
                None
            }
        },
    };
    let sizes: Option<Vec<(u32, u32)>> = match overview_sizes {
        Some(given) => {
            let mut given: Vec<(u32, u32)> = given;
            given.truncate(overviews);
            Some(given)
        },
        None => None,
    };
    (levels, sizes)
}

/// Whether `layout` is that of an output with the given factors and sizes of overviews:
/// overviews of an output with masks stand beside the image. Without factors the
/// overviews are those that the options ask for.
pub open spec fn is_remux_layout(
    opts: CogOutputOptions,
    levels: Option<Seq<u32>>,
    sizes: Option<Seq<(u32, u32)>>,
    has_masks: bool,
    width: u32,
    height: u32,
    layout: CogLayout,
) -> bool {
    &&& layout.resampling == opts.resampling
    &&& match levels {
        Some(factors) => {
            &&& optional_seq(layout.levels) == Some(factors)
            &&& optional_seq(layout.sizes) == sizes
            &&& layout.storage == (if has_masks {
                OverviewStorage::TopLevelIfds
            } else {
                OverviewStorage::SubIfds
            })
        },
        None => {
            &&& layout.storage == OverviewStorage::SubIfds
            &&& layout.sizes is None
            &&& layout.levels is None <==> opts.no_overviews
            &&& layout.levels matches Some(found) ==> match opts.overview_levels {
                Some(given) => found@ == given@,
                None => is_auto_pyramid(
                    width as nat,
                    height as nat,
                    opts.blocksize as nat,
                    found@,
                ),
            }
        },
    }
}

/// The overviews of an output of so many layers, as the writer is set to them: no more
/// factors and sizes than there are overviews. None where the samples have no machine type.
pub fn remux_encoded_layers(
    profile: &RasterProfile,
    opts: &CogOutputOptions,
    layer_count: usize,
    overview_levels: Option<Vec<u32>>,
    overview_sizes: Option<Vec<(u32, u32)>>,
    has_masks: bool,
) -> (plan: Option<(CogLayout, SampleKind)>)
    ensures
        match kind_of(profile.sample.bits_per_sample, profile.sample.sample_format) {
            None => plan is None,
            Some(kind) => plan matches Some(found) && found.1 == kind && is_layout_of_layers(
                *profile,
                *opts,
                layer_count,
                optional_seq(overview_levels),
                optional_seq(overview_sizes),
                has_masks,
                found.0,
            ),
        },
{
    let (levels, sizes): (Option<Vec<u32>>, Option<Vec<(u32, u32)>>) = remux_levels(
        profile,
        opts,
        layer_count,
        overview_levels,
        overview_sizes,
    );
    configure_remux(profile, opts, levels, sizes, has_masks)
}

/// Whether `layout` is that of an output of so many layers: the factors and sizes are cut to
/// its number of overviews, and missing factors are those of the full pyramid.
pub open spec fn is_layout_of_layers(
    profile: RasterProfile,
    opts: CogOutputOptions,
    layer_count: usize,
    levels: Option<Seq<u32>>,
    sizes: Option<Seq<(u32, u32)>>,
    has_masks: bool,
    layout: CogLayout,
) -> bool {
    let overviews = max_of(layer_count - 1, 0) as nat;
    exists|assembled: Option<Seq<u32>>| #[trigger]
        is_assembled_levels(
            levels,
            overviews,
            profile.width,
            profile.height,
            opts.blocksize,
            assembled,
        ) && is_remux_layout(
            opts,
            assembled,
            (match sizes {
                Some(all) => Some(cut(all, overviews)),
                None => None,
            }),
            has_masks,
            profile.width,
            profile.height,
            layout,
        )
}

/// The overviews of the output, as the writer is set to them; none where the samples
/// have no machine type.
pub fn configure_remux(
    profile: &RasterProfile,
    opts: &CogOutputOptions,
    overview_levels: Option<Vec<u32>>,
    overview_sizes: Option<Vec<(u32, u32)>>,
    has_masks: bool,
) -> (plan: Option<(CogLayout, SampleKind)>)
    ensures
        match kind_of(profile.sample.bits_per_sample, profile.sample.sample_format) {
            None => plan is None,
            Some(kind) => plan matches Some(found) && found.1 == kind && is_remux_layout(
                *opts,
                optional_seq(overview_levels),
                optional_seq(overview_sizes),
                has_masks,
                profile.width,
                profile.height,
                found.0,
            ),
        },
{
    let layout: CogLayout = match (overview_levels, overview_sizes, has_masks) {
        (Some(levels), Some(sizes), true) => configure_cog_with_layer_sizes_masked(
            opts,
            levels,
            sizes,
        ),
        (Some(levels), Some(sizes), false) => configure_cog_with_layer_sizes(opts, levels, sizes),
        (Some(levels), None, true) => {
            let mut layout: CogLayout = configure_cog_with_levels(opts, levels);
            layout.storage = OverviewStorage::TopLevelIfds;
            layout
        },
        (Some(levels), None, false) => configure_cog_with_levels(opts, levels),
        _ => configure_cog(opts, profile.width, profile.height),
    };
    match sample_kind(profile.sample.bits_per_sample, profile.sample.sample_format) {
        None => None,
        Some(kind) => Some((layout, kind)),
    }
}

/// The factor of an overview is the whole number of times that its width goes into that of
/// the full-size image.
pub proof fn law_overview_factor_is_ratio_of_widths(source: SourceInfo, overview: int)
    requires
        0 <= overview < source.overviews@.len(),
        0 < source.overviews@[overview].width <= source.base().width,
    ensures
        ({
            let factor = overview_factors(source)[overview];
            let width = source.overviews@[overview].width;
            factor * width <= source.base().width < (factor + 1) * width
        }),
{
    crate::crop::lemma_share(
        source.base().width as int,
        source.overviews@[overview].width as int,
    );
    let width = source.overviews@[overview].width as int;
    let quotient = source.base().width as int / width;
    assert(quotient >= 1) by (nonlinear_arith)
        requires
            source.base().width < (quotient + 1) * width,
            width <= source.base().width,
            width > 0,
    ;
}

/// Layers are counted from the full-size image on: behind it come the overviews in their
/// order, and behind those there are none.
pub proof fn law_layers_are_image_and_overviews(source: SourceInfo, layer: int)
    requires
        0 <= layer,
    ensures
        layer == 0 ==> layer_of(source, layer) == Some(source.ifds@[source.base_ifd as int]),
        1 <= layer <= source.overviews@.len() ==> layer_of(source, layer) == Some(
            source.overviews@[layer - 1],
        ),
        layer > source.overviews@.len() ==> layer_of(source, layer) is None,
{
}

/// The layer that an overview is made from has the factor that is named for it, is never
/// coarser than the overview, and is the overview of the source with the same factor wherever
/// there is one.
pub proof fn law_read_layer_has_its_factor(source: SourceInfo, level: u32, read: ReadSource)
    requires
        level > 0,
        source.overviews@.len() <= usize::MAX,
        is_read_source(source, level, read),
    ensures
        read.layer <= source.overviews@.len(),
        read.layer > 0 ==> read.factor == overview_factors(source)[read.layer - 1],
        read.layer == 0 ==> read.factor == 1 && read.downsample == level,
        read.layer > 0 && read.factor != level ==> 1 < read.factor && level % read.factor == 0,
        read.factor <= level,
        forall|i: int|
            0 <= i < source.overviews@.len() && #[trigger] overview_factors(source)[i] == level
                ==> read.layer >= 1 && read.layer <= i + 1 && read.factor == level,
{
    let factors = overview_factors(source);
    lemma_factor_position(factors, level, 0);
    lemma_first_position(factors, level, 0);
    law_reductions_make_up_level(source, level, read);
    if read.layer > 0 && read.factor != level {
        assert(divides(factors[read.layer - 1], level));
        lemma_fundamental_div_mod(level as int, read.factor as int);
        assert(read.factor <= level) by (nonlinear_arith)
            requires
                read.factor * read.downsample == level,
                level > 0,
        ;
    }
}

/// A factor that stands somewhere is found, at the first place where it stands.
pub proof fn lemma_first_position(factors: Seq<u32>, factor: u32, from: int)
    requires
        0 <= from,
    ensures
        forall|i: int|
            from <= i < factors.len() && #[trigger] factors[i] == factor ==> factor_position(
                factors,
                factor,
                from,
            ) is Some && factor_position(factors, factor, from)->0 <= i,
    decreases factors.len() - from,
{
    if from < factors.len() && factors[from] != factor {
        lemma_first_position(factors, factor, from + 1);
    }
}

/// What each strategy is taken for. Blocks are copied or decoded as a whole only if all bands
/// are kept in their order; other selections of bands move planes where each band has its own
/// blocks, and pixels elsewhere. A window is cut, and sources in strips are encoded.
pub proof fn law_strategies_fit_their_sources(
    source: SourceInfo,
    profile: RasterProfile,
    opts: CogOutputOptions,
    window: Option<WriteWindow>,
    bands: Option<Seq<usize>>,
    path: ConvertPath,
)
    requires
        remux_path(source, profile, opts, window, bands) == Ok::<
            Option<ConvertPath>,
            UnsupportedSampleFormat,
        >(Some(path)),
    ensures
        path is StripEncode <==> !source.base().tiled,
        path is HybridCropRemux <==> source.base().tiled && window is Some,
        path is RemuxIdentity || path is TranscodeRemux ==> window is None && (bands is None || (
        bands->0.len() == source.band_count && forall|i: int|
            0 <= i < bands->0.len() ==> #[trigger] bands->0[i] == i + 1)),
        path is PlanarBandPermute || path is ChunkyBandPermute ==> window is None && bands is Some
            && !(bands->0.len() == source.band_count && forall|i: int|
            0 <= i < bands->0.len() ==> #[trigger] bands->0[i] == i + 1),
        path is PlanarBandPermute ==> planar_in(source.base()) is Planar,
        path is ChunkyBandPermute ==> planar_in(source.base()) is Chunky,
        path is TranscodeRemux ==> source.overviews@.len() > 0,
        path is RemuxIdentity ==> opts.compression.scheme() == compression_in(source.base()),
        path is StripEncode ==> (bands is None || (bands->0.len() == source.band_count
            && forall|i: int| 0 <= i < bands->0.len() ==> #[trigger] bands->0[i] == i + 1)),
        !(path is StripEncode) ==> source.base().tile_width == Some(opts.blocksize)
            && source.base().tile_height == Some(opts.blocksize) && !(opts.no_overviews
            && source.overviews@.len() > 0),
        !(path is RemuxIdentity) && !(path is PlanarBandPermute) ==> kind_of(
            profile.sample.bits_per_sample,
            profile.sample.sample_format,
        ) is Some,
{
}

/// A strategy is found for a tiled source whose layout fits and whose bands are all kept, if
/// its blocks are compressed as the output is, or it has overviews and samples that can be
/// encoded anew.
pub proof fn law_fitting_sources_have_a_strategy(
    source: SourceInfo,
    profile: RasterProfile,
    opts: CogOutputOptions,
)
    requires
        source.base().tiled,
        layout_fits(source, profile, opts) == Ok::<bool, UnsupportedSampleFormat>(true),
    ensures
        opts.compression.scheme() == compression_in(source.base()) ==> (remux_path(
            source,
            profile,
            opts,
            None,
            None,
        ) matches Ok(Some(_))),
        source.overviews@.len() > 0 && encodable(profile) ==> (remux_path(
            source,
            profile,
            opts,
            None,
            None,
        ) matches Ok(Some(_))),
        opts.compression.scheme() == compression_in(source.base()) && overview_tiles_fit(
            source,
            opts.blocksize,
        ) ==> (remux_path(source, profile, opts, None, None) matches Ok(
            Some(ConvertPath::RemuxIdentity),
        )),
{
}

/// A plane has as many blocks as its grid has tiles.
pub proof fn law_planes_have_a_block_for_each_tile(ifd: IfdInfo)
    ensures
        ifd.tile_width matches Some(size) ==> tiles_per_plane(ifd) == crate::cog::grid::tile_count(
            ifd.width as nat,
            ifd.height as nat,
            size as nat,
        ),
{
    if let Some(size) = ifd.tile_width {
        let across = ceil_div(ifd.width as nat, size as nat) as int;
        let down = ceil_div(ifd.height as nat, size as nat) as int;
        assert(across * down == down * across) by (nonlinear_arith);
    }
}

/// The factors that are written belong to the layers: they are the first ones of those that
/// are given, no more than there are overviews.
pub proof fn law_written_levels_are_those_of_the_layers(
    given: Seq<u32>,
    overviews: nat,
    width: u32,
    height: u32,
    blocksize: u32,
    levels: Seq<u32>,
    i: int,
)
    requires
        is_assembled_levels(Some(given), overviews, width, height, blocksize, Some(levels)),
        0 <= i < levels.len(),
    ensures
        levels.len() <= overviews,
        levels.len() == overviews || levels.len() == given.len(),
        levels[i] == given[i],
{
}

/// Where masks are written, the overviews stand beside the full-size image, and below it
/// elsewhere; factors and sizes are written as they are given.
pub proof fn law_masks_need_top_level_overviews(
    opts: CogOutputOptions,
    levels: Seq<u32>,
    sizes: Option<Seq<(u32, u32)>>,
    has_masks: bool,
    width: u32,
    height: u32,
    layout: CogLayout,
)
    requires
        is_remux_layout(opts, Some(levels), sizes, has_masks, width, height, layout),
    ensures
        layout.storage is TopLevelIfds <==> has_masks,
        layout.levels matches Some(found) && found@ == levels,
        sizes is None <==> layout.sizes is None,
        layout.sizes matches Some(found) ==> sizes == Some(found@),
        layout.resampling == opts.resampling,
{
}

/// An output has no more factors and sizes than overviews, each that of its layer, and says
/// where the overviews stand.
pub proof fn law_layouts_describe_the_overviews(
    profile: RasterProfile,
    opts: CogOutputOptions,
    layer_count: usize,
    levels: Seq<u32>,
    sizes: Seq<(u32, u32)>,
    has_masks: bool,
    layout: CogLayout,
    i: int,
)
    requires
        is_layout_of_layers(
            profile,
            opts,
            layer_count,
            Some(levels),
            Some(sizes),
            has_masks,
            layout,
        ),
        layer_count >= 1,
        0 <= i,
    ensures
        layout.storage is TopLevelIfds <==> has_masks,
        layout.levels matches Some(found) ==> found@.len() < layer_count && (i < found@.len()
            ==> found@[i] == levels[i]),
        layout.sizes matches Some(found) ==> found@.len() < layer_count && (i < found@.len()
            ==> found@[i] == sizes[i]),
{
    let overviews = (layer_count - 1) as nat;
    let assembled = choose|assembled: Option<Seq<u32>>| #[trigger]
        is_assembled_levels(
            Some(levels),
            overviews,
            profile.width,
            profile.height,
            opts.blocksize,
            assembled,
        ) && is_remux_layout(
            opts,
            assembled,
            Some(cut(sizes, overviews)),
            has_masks,
            profile.width,
            profile.height,
            layout,
        );
    assert(is_assembled_levels(
        Some(levels),
        overviews,
        profile.width,
        profile.height,
        opts.blocksize,
        assembled,
    ));
}

/// Where no factors are given, those of the default pyramid are written, as many as there are
/// overviews; without overviews there are none.
pub proof fn law_missing_levels_are_those_of_the_pyramid(
    overviews: nat,
    width: u32,
    height: u32,
    blocksize: u32,
    levels: Option<Seq<u32>>,
    i: int,
)
    requires
        is_assembled_levels(None, overviews, width, height, blocksize, levels),
    ensures
        overviews == 0 <==> levels is None,
        levels matches Some(found) ==> {
            &&& found.len() <= overviews
            &&& found.len() > 0 ==> found[0] == 2
            &&& 0 < i < found.len() ==> found[i] == 2 * found[i - 1]
        },
{
    if let Some(found) = levels {
        let all = choose|all: Seq<u32>| #[trigger]
            is_auto_pyramid(width as nat, height as nat, blocksize as nat, all) && found == cut(
                all,
                overviews,
            );
        crate::cog::grid::law_auto_levels_double(
            width as nat,
            height as nat,
            blocksize as nat,
            all,
        );
        if 0 < i < found.len() {
            assert(all[i - 1] == found[i - 1]);
            assert(all[i - 1 + 1] == found[i]);
        }
    }
}

/// A crop is cut without decoding all of it only if each of its overviews can be made from an
/// overview of the source.
pub proof fn law_crops_have_all_their_overviews(
    source: SourceInfo,
    profile: RasterProfile,
    opts: CogOutputOptions,
    window: WriteWindow,
    bands: Option<Seq<usize>>,
)
    requires
        remux_path(source, profile, opts, Some(window), bands) == Ok::<
            Option<ConvertPath>,
            UnsupportedSampleFormat,
        >(Some(ConvertPath::HybridCropRemux)),
    ensures
        exists|levels: Seq<u32>| #[trigger]
            opts.are_overview_levels(profile.width, profile.height, levels) && forall|i: int|
            0 <= i < levels.len() ==> !#[trigger] crate::hybrid_crop::is_crop_source(
                source,
                window,
                levels,
                i,
                None,
            ),
{
    let levels = choose|levels: Seq<u32>| #[trigger]
        opts.are_overview_levels(profile.width, profile.height, levels)
            && crate::hybrid_crop::cropped_from_overviews(source, window, levels);
    assert(opts.are_overview_levels(profile.width, profile.height, levels));
}

/// Where no factors are given, the overviews are those that the options list, or those of the
/// default pyramid, and there are none if none are asked for.
pub proof fn law_layouts_without_levels_follow_options(
    opts: CogOutputOptions,
    sizes: Option<Seq<(u32, u32)>>,
    has_masks: bool,
    width: u32,
    height: u32,
    layout: CogLayout,
    i: int,
)
    requires
        is_remux_layout(opts, None, sizes, has_masks, width, height, layout),
    ensures
        layout.resampling == opts.resampling,
        layout.storage is SubIfds,
        layout.levels is None <==> opts.no_overviews,
        layout.levels matches Some(found) ==> match opts.overview_levels {
            Some(given) => found@ == given@,
            None => {
                &&& found@.len() > 0 ==> found@[0] == 2
                &&& 0 < i < found@.len() ==> found@[i] == 2 * found@[i - 1]
                &&& found@.len() == 0 <==> width <= opts.blocksize && height <= opts.blocksize
            },
        },
{
    if let Some(found) = layout.levels {
        if opts.overview_levels is None {
            crate::cog::grid::law_auto_levels_double(
                width as nat,
                height as nat,
                opts.blocksize as nat,
                found@,
            );
            crate::cog::grid::law_auto_pyramid_ends_in_a_block(
                width as nat,
                height as nat,
                opts.blocksize as nat,
                found@,
                0,
            );
            if 0 < i < found@.len() {
                assert(found@[i - 1 + 1] == 2 * found@[i - 1]);
            }
        }
    }
}

/// The factor that is chosen to reduce from goes into the level, is greater than one, and no
/// greater one goes into it.
pub proof fn law_chosen_factor_is_the_greatest(
    factors: Seq<u32>,
    level: u32,
    best: int,
    other: int,
)
    requires
        is_divisor(factors, level, factors.len() as int, best),
        0 <= other < factors.len(),
    ensures
        1 < factors[best],
        level % factors[best] == 0,
        factors[other] > factors[best] ==> level % factors[other] != 0,
        !none_divides(factors, level, factors.len() as int),
{
    assert(divides(factors[best], level));
    if factors[other] > factors[best] {
        assert(!divides(factors[other], level));
    }
}

} // verus!
