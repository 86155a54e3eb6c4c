//! The order in which the layers of the output are encoded, and which overviews are
//! reduced from the one before them instead of from the source.
use crate::arith::min_of;
use crate::cog::builder::{tile_encoding, tile_encoding_from_opts, TileEncoding};
use crate::cog::grid::{overview_dimensions, reduced_side, tile_count, tile_grid};
use crate::cog::mask::DatasetMasks;
use crate::cog::mask_layers::{
    interleaved, mask_origin, prepare_remux_layers, MaskDescriptor, MaskOrigin, OutputLayer,
};
use crate::cog::options::{overview_levels, CogOutputOptions};
use crate::cog::semantics::bands_countable;
use crate::encode::delivery::{
    arrivals, arrived, law_streamed_blocks_keep_their_places, sparse_are_empty, stream_layer,
    streamed, EncodedBlock,
};
use crate::input::profile::{RasterProfile, SourceInfo};
use crate::remux::{is_read_source, resolve_overview_read_source, ReadSource};
use crate::spool::{
    law_spool_append, law_spool_roundtrip, layer_bytes, parse_layers, spool_bytes, BlockView,
    CompressedBlock, LayerBlockSpool, SpoolError,
};
use vstd::prelude::*;

verus! {

/// Whether an overview is reduced from the one before it: that has half its factor, and
/// the source has no overview that could be read as it is.
pub open spec fn chains(source: SourceInfo, parent_level: u32, next_level: u32) -> bool {
    &&& next_level == min_of(parent_level * 2, u32::MAX as int)
    &&& source.overviews@.len() == 0 || !readable_as_is(source, next_level)
}

/// Whether the source has an overview that can be read for this factor as it is.
pub open spec fn readable_as_is(source: SourceInfo, level: u32) -> bool {
    exists|read: ReadSource| #[trigger]
        is_read_source(source, level, read) && read.factor == level && read.downsample == 1
}

/// Whether an overview is reduced from the one before it.
pub fn should_chain_from_parent(source: &SourceInfo, parent_level: u32, next_level: u32) -> (chain:
    bool)
    requires
        source.well_formed(),
        next_level > 0,
    ensures
        chain == chains(*source, parent_level, next_level),
{
    let doubled: u32 = match parent_level.checked_mul(2) {
        Some(doubled) => doubled,
        None => u32::MAX,
    };
    if next_level != doubled {
        return false;
    }
    if source.overviews.len() == 0 {
        return true;
    }
    let read: ReadSource = resolve_overview_read_source(source, next_level);
    let direct: bool = read.factor == next_level && read.downsample == 1;
    proof {
        if readable_as_is(*source, next_level) {
            let other = choose|other: ReadSource| #[trigger]
                is_read_source(*source, next_level, other) && other.factor == next_level
                    && other.downsample == 1;
            lemma_read_source_unique(*source, next_level, read, other);
        }
    }
    !direct
}

proof fn lemma_read_source_unique(source: SourceInfo, level: u32, a: ReadSource, b: ReadSource)
    requires
        is_read_source(source, level, a),
        is_read_source(source, level, b),
    ensures
        a == b,
{
    let factors = crate::remux::overview_factors(source);
    if crate::remux::factor_position(factors, level, 0) is None && !crate::remux::all_smaller(
        factors,
        level,
        factors.len() as int,
    ) && !crate::remux::none_divides(factors, level, factors.len() as int) {
        let i = a.layer - 1;
        let j = b.layer - 1;
        assert(crate::remux::divides(factors[i], level) && crate::remux::divides(
            factors[j],
            level,
        ));
        assert(factors[i] <= factors[j] && factors[j] <= factors[i]);
    }
}

/// Where the pixels of an overview come from.
#[derive(Debug, Clone, Copy, PartialEq, Eq, Structural)]
pub enum OverviewOrigin {
    /// The source.
    Source,
    /// The decoded tiles of the overview with this factor, reduced by `downsample`.
    Parent { level: u32, downsample: usize },
}

/// A layer that is encoded.
#[derive(Debug, Clone, Copy, PartialEq, Eq, Structural)]
pub struct OverviewStep {
    pub level: u32,
    pub width: u32,
    pub height: u32,
    pub block_count: usize,
    pub origin: OverviewOrigin,
    /// Whether the decoded tiles are kept for the overview behind it.
    pub keep_decoded: bool,
}

/// Whether the tiles of an overview are kept: the one behind it is reduced from it.
pub open spec fn keeps(source: SourceInfo, levels: Seq<u32>, index: int) -> bool {
    0 <= index && index + 1 < levels.len() && chains(source, levels[index], levels[index + 1])
}

/// The reduction from one overview to the next: the quotient of the factors, at least
/// one.
pub open spec fn parent_reduction(level: u32, parent_level: u32) -> int {
    crate::arith::max_of(level as int / parent_level as int, 1)
}

/// How overview `index` is encoded.
pub open spec fn overview_step(
    source: SourceInfo,
    width: u32,
    height: u32,
    tile_size: u32,
    levels: Seq<u32>,
    index: int,
) -> OverviewStep {
    let level = levels[index];
    let ov_width = reduced_side(width as nat, level as nat);
    let ov_height = reduced_side(height as nat, level as nat);
    OverviewStep {
        level,
        width: ov_width as u32,
        height: ov_height as u32,
        block_count: tile_count(ov_width, ov_height, tile_size as nat) as usize,
        origin: if keeps(source, levels, index - 1) {
            OverviewOrigin::Parent {
                level: levels[index - 1],
                downsample: parent_reduction(level, levels[index - 1]) as usize,
            }
        } else {
            OverviewOrigin::Source
        },
        keep_decoded: keeps(source, levels, index),
    }
}

/// Every overview has a factor, and its tiles can be counted.
pub open spec fn levels_countable(width: u32, height: u32, tile_size: u32, levels: Seq<u32>) -> bool {
    forall|i: int|
        0 <= i < levels.len() ==> (#[trigger] levels[i]) > 0 && tile_count(
            reduced_side(width as nat, levels[i] as nat),
            reduced_side(height as nat, levels[i] as nat),
            tile_size as nat,
        ) <= usize::MAX
}

fn block_count(width: u32, height: u32, tile_size: u32) -> (count: usize)
    requires
        tile_size > 0,
        tile_count(width as nat, height as nat, tile_size as nat) <= usize::MAX,
    ensures
        count == tile_count(width as nat, height as nat, tile_size as nat),
{
    let down: usize = crate::arith::div_ceil(height as usize, tile_size as usize);
    let across: usize = crate::arith::div_ceil(width as usize, tile_size as usize);
    down * across
}

fn step(
    level: u32,
    width: u32,
    height: u32,
    tile_size: u32,
    origin: OverviewOrigin,
    keep_decoded: bool,
) -> (step: OverviewStep)
    requires
        level > 0,
        tile_size > 0,
        tile_count(
            reduced_side(width as nat, level as nat),
            reduced_side(height as nat, level as nat),
            tile_size as nat,
        ) <= usize::MAX,
    ensures
        step == (OverviewStep {
            level,
            width: reduced_side(width as nat, level as nat) as u32,
            height: reduced_side(height as nat, level as nat) as u32,
            block_count: tile_count(
                reduced_side(width as nat, level as nat),
                reduced_side(height as nat, level as nat),
                tile_size as nat,
            ) as usize,
            origin,
            keep_decoded,
        }),
{
    let (ov_width, ov_height): (u32, u32) = overview_dimensions(width, height, level);
    OverviewStep {
        level,
        width: ov_width,
        height: ov_height,
        block_count: block_count(ov_width, ov_height, tile_size),
        origin,
        keep_decoded,
    }
}

fn reduction(level: u32, parent_level: u32) -> (downsample: usize)
    requires
        parent_level > 0,
    ensures
        downsample == parent_reduction(level, parent_level),
{
    let quotient: u32 = level / parent_level;
    if quotient < 1 {
        1
    } else {
        quotient as usize
    }
}

/// What is encoded: the full-size image with its number of tiles, and behind it the
/// overviews.
#[derive(Debug)]
pub struct EncodePlan {
    pub base_blocks: usize,
    pub steps: Vec<OverviewStep>,
}

/// What is encoded, layer by layer: the full-size image with as many blocks as it has tiles,
/// then every overview.
pub fn plan_overview_layers(
    source: &SourceInfo,
    width: u32,
    height: u32,
    tile_size: u32,
    levels: &[u32],
) -> (plan: EncodePlan)
    requires
        source.well_formed(),
        tile_size > 0,
        tile_count(width as nat, height as nat, tile_size as nat) <= usize::MAX,
        levels_countable(width, height, tile_size, levels@),
    ensures
        plan.base_blocks == tile_count(width as nat, height as nat, tile_size as nat),
        plan.steps@.len() == levels@.len(),
        forall|i: int|
            0 <= i < plan.steps@.len() ==> #[trigger] plan.steps@[i] == overview_step(
                *source,
                width,
                height,
                tile_size,
                levels@,
                i,
            ),
{
    let mut steps: Vec<OverviewStep> = Vec::new();
    let mut parent: Option<u32> = None;
    let mut index: usize = 0;
    let count: usize = levels.len();
    while index < count
        invariant
            index <= count,
            count == levels@.len(),
            source.well_formed(),
            tile_size > 0,
            levels_countable(width, height, tile_size, levels@),
            parent == (if keeps(*source, levels@, index - 1) {
                Some(levels@[index - 1])
            } else {
                None
            }),
            steps@.len() == index,
            forall|i: int|
                0 <= i < index ==> #[trigger] steps@[i] == overview_step(
                    *source,
                    width,
                    height,
                    tile_size,
                    levels@,
                    i,
                ),
        decreases count - index,
    {
        let level: u32 = levels[index];
        let chain_next: bool = if index + 1 < count {
            should_chain_from_parent(source, level, levels[index + 1])
        } else {
            false
        };
        let origin: OverviewOrigin = match parent {
            Some(parent_level) => OverviewOrigin::Parent {
                level: parent_level,
                downsample: reduction(level, parent_level),
            },
            None => OverviewOrigin::Source,
        };
        steps.push(step(level, width, height, tile_size, origin, chain_next));
        parent = if chain_next {
            Some(level)
        } else {
            None
        };
        index = index + 1;
    }
    EncodePlan { base_blocks: block_count(width, height, tile_size), steps }
}

/// How many tiles each layer of the output has: the full-size image, then the overviews in
/// the order of their factors.
pub open spec fn layer_counts(width: u32, height: u32, tile_size: u32, levels: Seq<u32>) -> Seq<
    nat,
> {
    Seq::new(
        1 + levels.len(),
        |i: int|
            if i == 0 {
                tile_count(width as nat, height as nat, tile_size as nat)
            } else {
                tile_count(
                    reduced_side(width as nat, levels[i - 1] as nat),
                    reduced_side(height as nat, levels[i - 1] as nat),
                    tile_size as nat,
                )
            },
    )
}

/// What encoders hand over for each layer.
pub open spec fn deliveries(encoded: Seq<Vec<EncodedBlock>>) -> Seq<Seq<(usize, BlockView)>> {
    encoded.map_values(|blocks: Vec<EncodedBlock>| arrivals(blocks@))
}

/// Whether these are the first layers that are made of what encoders hand over.
pub open spec fn are_layers(
    counts: Seq<nat>,
    handed: Seq<Seq<(usize, BlockView)>>,
    layers: Seq<Seq<BlockView>>,
) -> bool {
    &&& layers.len() <= counts.len()
    &&& forall|k: int|
        0 <= k < layers.len() ==> #[trigger] streamed(counts[k], handed[k]) == Ok::<
            Seq<BlockView>,
            SpoolError,
        >(layers[k])
}

/// Whether the encoding of layers ends with this error, behind `written` of them: the blocks
/// of the next layer are refused or incomplete, or it can no longer be counted.
pub open spec fn ends_with(
    before: nat,
    counts: Seq<nat>,
    handed: Seq<Seq<(usize, BlockView)>>,
    written: int,
    error: SpoolError,
) -> bool {
    &&& 0 <= written < counts.len()
    &&& match streamed(counts[written], handed[written]) {
        Err(reason) => error == reason,
        Ok(_) => before + written == u32::MAX && error == SpoolError::LayerCountOverflow,
    }
}

/// Puts the full-size image and its overviews into a spool, behind the layers that it already
/// has. For each layer encoders hand over its blocks, in any order. A layer is counted once
/// all of its tiles are there.
pub fn encode_overview_layers_to_spool(
    spool: &mut LayerBlockSpool,
    width: u32,
    height: u32,
    tile_size: u32,
    levels: &[u32],
    encoded: Vec<Vec<EncodedBlock>>,
) -> (result: Result<(), SpoolError>)
    requires
        old(spool).well_formed(),
        old(spool).at_end(),
        tile_size > 0,
        tile_count(width as nat, height as nat, tile_size as nat) <= usize::MAX,
        levels_countable(width, height, tile_size, levels@),
        levels@.len() < usize::MAX,
        forall|k: int| 0 <= k < encoded@.len() ==> sparse_are_empty((#[trigger] encoded@[k])@),
    ensures
        final(spool).well_formed(),
        final(spool).at_end(),
        ({
            let counts = layer_counts(width, height, tile_size, levels@);
            let handed = deliveries(encoded@);
            match result {
                Ok(()) => {
                    &&& encoded@.len() == 1 + levels@.len()
                    &&& final(spool).written_layers() == old(spool).written_layers() + 1
                        + levels@.len()
                    &&& final(spool).written_layers() <= u32::MAX
                    &&& exists|layers: Seq<Seq<BlockView>>| #[trigger]
                        are_layers(counts, handed, layers) && layers.len() == 1 + levels@.len()
                            && final(spool).content() == old(spool).content() + spool_bytes(layers)
                },
                Err(error) => if encoded@.len() != 1 + levels@.len() {
                    &&& error == SpoolError::UnexpectedLayers {
                        expected: (1 + levels@.len()) as usize,
                        found: encoded@.len() as usize,
                    }
                    &&& *final(spool) == *old(spool)
                } else {
                    exists|layers: Seq<Seq<BlockView>>| #[trigger]
                        are_layers(counts, handed, layers) && ends_with(
                            old(spool).written_layers(),
                            counts,
                            handed,
                            layers.len() as int,
                            error,
                        ) && final(spool).written_layers() == old(spool).written_layers()
                            + layers.len() && (old(spool).content() + spool_bytes(
                            layers,
                        )).is_prefix_of(final(spool).content())
                },
            }
        }),
{
    let expected: usize = levels.len() + 1;
    if encoded.len() != expected {
        return Err(SpoolError::UnexpectedLayers { expected, found: encoded.len() });
    }
    let ghost counts = layer_counts(width, height, tile_size, levels@);
    let ghost handed = deliveries(encoded@);
    let ghost mut layers = Seq::<Seq<BlockView>>::empty();
    let ghost start = spool.content();
    let mut k: usize = 0;
    assert(start + spool_bytes(layers) =~= start);
    for blocks in iter: encoded.into_iter()
        invariant
            iter.seq() == encoded@,
            k == iter.index(),
            encoded@.len() == expected,
            expected == 1 + levels@.len(),
            tile_size > 0,
            tile_count(width as nat, height as nat, tile_size as nat) <= usize::MAX,
            levels_countable(width, height, tile_size, levels@),
            forall|i: int| 0 <= i < encoded@.len() ==> sparse_are_empty((#[trigger] encoded@[i])@),
            counts == layer_counts(width, height, tile_size, levels@),
            handed == deliveries(encoded@),
            are_layers(counts, handed, layers),
            layers.len() == k,
            spool.well_formed(),
            spool.at_end(),
            start == old(spool).content(),
            spool.content() == start + spool_bytes(layers),
            spool.written_layers() == old(spool).written_layers() + k,
    {
        assert(encoded@[k as int] == blocks);
        assert(handed[k as int] == arrivals(blocks@));
        let count: usize = if k == 0 {
            block_count(width, height, tile_size)
        } else {
            let level: u32 = levels[k - 1];
            let (ov_width, ov_height): (u32, u32) = overview_dimensions(width, height, level);
            block_count(ov_width, ov_height, tile_size)
        };
        assert(count == counts[k as int]);
        match stream_layer(spool, count, blocks) {
            Err(error) => {
                return Err(error);
            },
            Ok(()) => {},
        }
        proof {
            let layer = streamed(count as nat, handed[k as int])->Ok_0;
            law_spool_append(layers, layer);
            let before = layers;
            layers = layers.push(layer);
            assert(start + spool_bytes(before) + layer_bytes(layer) =~= start + spool_bytes(
                layers,
            ));
            assert forall|i: int| 0 <= i < layers.len() implies #[trigger] streamed(
                counts[i],
                handed[i],
            ) == Ok::<Seq<BlockView>, SpoolError>(layers[i]) by {
                if i < before.len() {
                    assert(layers[i] == before[i]);
                }
            }
        }
        k = k + 1;
    }
    proof {
        spool.lemma_layers_counted();
    }
    Ok(())
}

/// A spool that holds the full-size image and its overviews, and nothing else.
pub fn encode_layers_with_spool(
    width: u32,
    height: u32,
    tile_size: u32,
    levels: &[u32],
    encoded: Vec<Vec<EncodedBlock>>,
) -> (result: Result<LayerBlockSpool, SpoolError>)
    requires
        tile_size > 0,
        tile_count(width as nat, height as nat, tile_size as nat) <= usize::MAX,
        levels_countable(width, height, tile_size, levels@),
        levels@.len() < usize::MAX,
        forall|k: int| 0 <= k < encoded@.len() ==> sparse_are_empty((#[trigger] encoded@[k])@),
    ensures
        ({
            let counts = layer_counts(width, height, tile_size, levels@);
            let handed = deliveries(encoded@);
            match result {
                Ok(spool) => {
                    &&& spool.well_formed()
                    &&& spool.at_end()
                    &&& encoded@.len() == 1 + levels@.len()
                    &&& spool.written_layers() == 1 + levels@.len()
                    &&& spool.written_layers() <= u32::MAX
                    &&& exists|layers: Seq<Seq<BlockView>>| #[trigger]
                        are_layers(counts, handed, layers) && layers.len() == 1 + levels@.len()
                            && spool.content() == spool_bytes(layers)
                },
                Err(error) => if encoded@.len() != 1 + levels@.len() {
                    error == SpoolError::UnexpectedLayers {
                        expected: (1 + levels@.len()) as usize,
                        found: encoded@.len() as usize,
                    }
                } else {
                    exists|layers: Seq<Seq<BlockView>>| #[trigger]
                        are_layers(counts, handed, layers) && ends_with(
                            0,
                            counts,
                            handed,
                            layers.len() as int,
                            error,
                        )
                },
            }
        }),
{
    let mut spool = LayerBlockSpool::new();
    let result: Result<(), SpoolError> = encode_overview_layers_to_spool(
        &mut spool,
        width,
        height,
        tile_size,
        levels,
        encoded,
    );
    match result {
        Ok(()) => {
            proof {
                let counts = layer_counts(width, height, tile_size, levels@);
                let handed = deliveries(encoded@);
                let layers = choose|layers: Seq<Seq<BlockView>>| #[trigger]
                    are_layers(counts, handed, layers) && layers.len() == 1 + levels@.len()
                        && spool.content() == Seq::<u8>::empty() + spool_bytes(layers);
                assert(Seq::<u8>::empty() + spool_bytes(layers) =~= spool_bytes(layers));
                assert(are_layers(counts, handed, layers));
            }
            Ok(spool)
        },
        Err(error) => Err(error),
    }
}

/// Whatever encoders hand over, the layers that are made of it are those of the output: the
/// full-size image first, then one for each overview, each with as many blocks as its tile
/// grid has tiles, in the order of the grid. They read back from the spool as they are.
pub proof fn law_encoded_layers_follow_tile_grids(
    width: u32,
    height: u32,
    tile_size: u32,
    levels: Seq<u32>,
    encoded: Seq<Vec<EncodedBlock>>,
    layers: Seq<Seq<BlockView>>,
)
    requires
        encoded.len() == 1 + levels.len(),
        layers.len() == 1 + levels.len(),
        forall|k: int| 0 <= k < encoded.len() ==> sparse_are_empty((#[trigger] encoded[k])@),
        are_layers(
            layer_counts(width, height, tile_size, levels),
            deliveries(encoded),
            layers,
        ),
    ensures
        layers[0].len() == tile_grid(width as nat, height as nat, tile_size as nat).len(),
        forall|k: int|
            0 <= k < levels.len() ==> (#[trigger] layers[k + 1]).len() == tile_grid(
                reduced_side(width as nat, levels[k] as nat),
                reduced_side(height as nat, levels[k] as nat),
                tile_size as nat,
            ).len(),
        forall|k: int, i: int|
            0 <= k < layers.len() && 0 <= i < layers[k].len() ==> arrived(
                arrivals(encoded[k]@),
                i,
                #[trigger] layers[k][i],
            ),
        parse_layers(spool_bytes(layers)) == Some(layers),
{
    let counts = layer_counts(width, height, tile_size, levels);
    let handed = deliveries(encoded);
    assert forall|k: int| 0 <= k < layers.len() implies {
        &&& (#[trigger] layers[k]).len() == counts[k]
        &&& layers[k].len() <= u32::MAX
        &&& forall|i: int| 0 <= i < layers[k].len() ==> (#[trigger] layers[k][i]).storable()
        &&& forall|i: int|
            0 <= i < layers[k].len() ==> arrived(handed[k], i, #[trigger] layers[k][i])
    } by {
        assert(streamed(counts[k], handed[k]) == Ok::<Seq<BlockView>, SpoolError>(layers[k]));
        assert(sparse_are_empty(encoded[k]@));
        assert forall|j: int|
            0 <= j < handed[k].len() && (#[trigger] handed[k][j]).1.sparse implies handed[k][j].1.payload.len()
            == 0 by {
            assert(handed[k][j].1 == encoded[k]@[j].block@);
        }
        law_streamed_blocks_keep_their_places(counts[k], handed[k], layers[k]);
    }
    assert forall|k: int, i: int| 0 <= k < layers.len() && 0 <= i < layers[k].len() implies arrived(
        arrivals(encoded[k]@),
        i,
        #[trigger] layers[k][i],
    ) by {
        assert(layers[k].len() == counts[k]);
        assert(handed[k] == arrivals(encoded[k]@));
    }
    assert forall|k: int| 0 <= k < levels.len() implies (#[trigger] layers[k + 1]).len()
        == tile_grid(
        reduced_side(width as nat, levels[k] as nat),
        reduced_side(height as nat, levels[k] as nat),
        tile_size as nat,
    ).len() by {
        assert(layers[k + 1].len() == counts[k + 1]);
    }
    assert(layers[0].len() == counts[0]);
    law_spool_roundtrip(layers);
}

/// An overview that is reduced from the one before it is half as large: it follows in
/// the list, and is reduced by two, as long as factors do not reach the largest number.
pub proof fn law_chained_overview_halves_parent(
    source: SourceInfo,
    width: u32,
    height: u32,
    tile_size: u32,
    levels: Seq<u32>,
    index: int,
)
    requires
        0 <= index < levels.len(),
        levels[index] < u32::MAX,
        levels_countable(width, height, tile_size, levels),
    ensures
        overview_step(source, width, height, tile_size, levels, index).origin matches
            OverviewOrigin::Parent { level, downsample } ==> {
            &&& index > 0
            &&& level == levels[index - 1]
            &&& levels[index] == 2 * level
            &&& downsample == 2
            &&& overview_step(source, width, height, tile_size, levels, index - 1).keep_decoded
        },
{
    if keeps(source, levels, index - 1) {
        let parent = levels[index - 1];
        assert(parent > 0);
        assert(levels[index] == parent * 2);
        vstd::arithmetic::div_mod::lemma_fundamental_div_mod_converse(
            levels[index] as int,
            parent as int,
            2,
            0,
        );
    }
}

/// Decoded tiles are kept only for the very next overview, which is then reduced from
/// them.
pub proof fn law_kept_tiles_are_used(
    source: SourceInfo,
    width: u32,
    height: u32,
    tile_size: u32,
    levels: Seq<u32>,
    index: int,
)
    requires
        0 <= index < levels.len(),
        overview_step(source, width, height, tile_size, levels, index).keep_decoded,
    ensures
        index + 1 < levels.len(),
        overview_step(source, width, height, tile_size, levels, index + 1).origin is Parent,
{
}

/// Whether a later overview has twice the factor of overview `index`.
pub open spec fn doubled_later(levels: Seq<u32>, index: int) -> bool {
    exists|j: int| index < j < levels.len() && #[trigger] levels[j] == levels[index] * 2
}

/// How overview `index` of a tiled source is encoded: from the tiles of the one before
/// it where these were kept and it has twice their factor.
pub open spec fn tiled_step(
    width: u32,
    height: u32,
    tile_size: u32,
    levels: Seq<u32>,
    index: int,
) -> OverviewStep {
    let level = levels[index];
    let ov_width = reduced_side(width as nat, level as nat);
    let ov_height = reduced_side(height as nat, level as nat);
    OverviewStep {
        level,
        width: ov_width as u32,
        height: ov_height as u32,
        block_count: tile_count(ov_width, ov_height, tile_size as nat) as usize,
        origin: if index > 0 && doubled_later(levels, index - 1) && level == levels[index - 1] * 2 {
            OverviewOrigin::Parent {
                level: levels[index - 1],
                downsample: parent_reduction(level, levels[index - 1]) as usize,
            }
        } else {
            OverviewOrigin::Source
        },
        keep_decoded: doubled_later(levels, index),
    }
}

fn is_doubled_later(levels: &[u32], index: usize) -> (later: bool)
    requires
        index < levels@.len(),
        levels@[index as int] * 2 <= u32::MAX,
    ensures
        later == doubled_later(levels@, index as int),
{
    let doubled: u32 = levels[index] * 2;
    let mut j: usize = index + 1;
    while j < levels.len()
        invariant
            index < j <= levels@.len(),
            doubled == levels@[index as int] * 2,
            forall|k: int| index < k < j ==> #[trigger] levels@[k] != doubled,
        decreases levels@.len() - j,
    {
        if levels[j] == doubled {
            return true;
        }
        j = j + 1;
    }
    false
}

/// How the overviews of a tiled source that is decoded as a whole are encoded.
pub fn convert_tiled_to_remux_cog(width: u32, height: u32, tile_size: u32, levels: &[u32]) -> (steps:
    Vec<OverviewStep>)
    requires
        tile_size > 0,
        levels_countable(width, height, tile_size, levels@),
        forall|i: int| 0 <= i < levels@.len() ==> (#[trigger] levels@[i]) * 2 <= u32::MAX,
    ensures
        steps@.len() == levels@.len(),
        forall|i: int|
            0 <= i < steps@.len() ==> #[trigger] steps@[i] == tiled_step(
                width,
                height,
                tile_size,
                levels@,
                i,
            ),
{
    let mut steps: Vec<OverviewStep> = Vec::new();
    let mut parent: Option<u32> = None;
    let mut index: usize = 0;
    let count: usize = levels.len();
    while index < count
        invariant
            index <= count,
            count == levels@.len(),
            tile_size > 0,
            levels_countable(width, height, tile_size, levels@),
            forall|i: int| 0 <= i < levels@.len() ==> (#[trigger] levels@[i]) * 2 <= u32::MAX,
            parent == (if index > 0 && doubled_later(levels@, index - 1) {
                Some(levels@[index - 1])
            } else {
                None
            }),
            parent matches Some(level) ==> level * 2 <= u32::MAX && level > 0,
            steps@.len() == index,
            forall|i: int|
                0 <= i < index ==> #[trigger] steps@[i] == tiled_step(
                    width,
                    height,
                    tile_size,
                    levels@,
                    i,
                ),
        decreases count - index,
    {
        let level: u32 = levels[index];
        let chain_next: bool = is_doubled_later(levels, index);
        let origin: OverviewOrigin = match parent {
            Some(parent_level) => {
                if level == parent_level * 2 {
                    OverviewOrigin::Parent {
                        level: parent_level,
                        downsample: reduction(level, parent_level),
                    }
                } else {
                    OverviewOrigin::Source
                }
            },
            None => OverviewOrigin::Source,
        };
        steps.push(step(level, width, height, tile_size, origin, chain_next));
        parent = if chain_next {
            Some(level)
        } else {
            None
        };
        index = index + 1;
    }
    steps
}

/// A layer of the output, counted among those of the image or among the masks.
#[derive(Debug, Clone, Copy, PartialEq, Eq, Structural)]
pub enum LayerRef {
    Rgb(usize),
    Mask(usize),
}

/// The order in which layers are written while they are encoded: the image, its mask,
/// the overviews of the image, the overviews of the mask.
pub open spec fn streaming_order(rgb_layers: nat, masks: nat) -> Seq<LayerRef> {
    seq![LayerRef::Rgb(0), LayerRef::Mask(0)] + Seq::new(
        (rgb_layers - 1) as nat,
        |i: int| LayerRef::Rgb((i + 1) as usize),
    ) + Seq::new((masks - 1) as nat, |i: int| LayerRef::Mask((i + 1) as usize))
}

/// The order in which layers are written while they are encoded.
pub fn encode_with_streaming_masks(rgb_layers: usize, masks: usize) -> (order: Vec<LayerRef>)
    requires
        rgb_layers > 0,
        masks > 0,
    ensures
        order@ == streaming_order(rgb_layers as nat, masks as nat),
{
    let mut order: Vec<LayerRef> = Vec::new();
    let mut rgb: usize = 0;
    let ghost head = seq![LayerRef::Rgb(0), LayerRef::Mask(0)];
    let ghost rgb_tail = Seq::new(
        (rgb_layers - 1) as nat,
        |i: int| LayerRef::Rgb((i + 1) as usize),
    );
    while rgb < rgb_layers
        invariant
            rgb <= rgb_layers,
            rgb_layers > 0,
            head == seq![LayerRef::Rgb(0), LayerRef::Mask(0)],
            rgb_tail == Seq::new(
                (rgb_layers - 1) as nat,
                |i: int| LayerRef::Rgb((i + 1) as usize),
            ),
            rgb == 0 ==> order@.len() == 0,
            rgb > 0 ==> order@ == head + rgb_tail.take(rgb - 1),
        decreases rgb_layers - rgb,
    {
        order.push(LayerRef::Rgb(rgb));
        rgb = rgb + 1;
        if rgb == 1 {
            order.push(LayerRef::Mask(0));
        }
        assert(order@ =~= head + rgb_tail.take(rgb - 1));
    }
    let ghost front = head + rgb_tail;
    let ghost mask_tail = Seq::new((masks - 1) as nat, |i: int| LayerRef::Mask((i + 1) as usize));
    assert(rgb_tail.take(rgb - 1) =~= rgb_tail);
    assert(order@ =~= front + mask_tail.take(0));
    let mut mask: usize = 1;
    while mask < masks
        invariant
            1 <= mask <= masks,
            mask_tail == Seq::new(
                (masks - 1) as nat,
                |i: int| LayerRef::Mask((i + 1) as usize),
            ),
            order@ == front + mask_tail.take(mask - 1),
        decreases masks - mask,
    {
        order.push(LayerRef::Mask(mask));
        mask = mask + 1;
        assert(order@ =~= front + mask_tail.take(mask - 1));
    }
    assert(mask_tail.take(mask - 1) =~= mask_tail);
    order
}

/// Layers that are written while they are encoded stand in the same order as layers that
/// are put together afterwards.
pub proof fn law_streaming_order_is_interleaved(
    rgb: Seq<Vec<CompressedBlock>>,
    masks: Seq<Vec<CompressedBlock>>,
    descriptors: Seq<MaskDescriptor>,
    at: int,
)
    requires
        0 < rgb.len() <= usize::MAX,
        0 < masks.len() <= usize::MAX,
        descriptors.len() == masks.len(),
        0 <= at < rgb.len() + masks.len(),
    ensures
        streaming_order(rgb.len(), masks.len()).len() == interleaved(
            rgb,
            masks,
            descriptors,
        ).len(),
        interleaved(rgb, masks, descriptors)[at] == (match streaming_order(
            rgb.len(),
            masks.len(),
        )[at] {
            LayerRef::Rgb(i) => OutputLayer::Rgb(rgb[i as int]),
            LayerRef::Mask(i) => OutputLayer::Mask {
                descriptor: descriptors[i as int],
                blocks: masks[i as int],
            },
        }),
{
}

/// How a raster that is decoded as a whole is written.
#[derive(Debug)]
pub struct ConvertPlan {
    pub tile_size: u32,
    pub out_bands: usize,
    pub encoding: TileEncoding,
    /// The decimation factors of the overviews.
    pub levels: Vec<u32>,
    /// How the masks come about. Without masks every layer is written as soon as it is
    /// encoded.
    pub masks: MaskOrigin,
}

/// How a raster that is decoded as a whole is written.
pub fn convert_to_remux_cog(
    masks: &Option<DatasetMasks>,
    profile: &RasterProfile,
    opts: &CogOutputOptions,
    windowed: bool,
) -> (plan: ConvertPlan)
    requires
        bands_countable(*profile),
    ensures
        plan.tile_size == opts.blocksize,
        plan.out_bands == profile.bands,
        plan.encoding == tile_encoding(
            *opts,
            opts.blocksize as usize,
            profile.bands as u16,
            None,
            profile.sample.sample_format,
        ),
        opts.are_overview_levels(profile.width, profile.height, plan.levels@),
        plan.masks == mask_origin(masks is Some, *profile, windowed, *opts),
{
    let samples: u16 = #[verifier::truncate]
    (profile.bands as u16);
    ConvertPlan {
        tile_size: opts.blocksize,
        out_bands: profile.bands as usize,
        encoding: tile_encoding_from_opts(
            opts,
            opts.blocksize as usize,
            samples,
            None,
            profile.sample.sample_format,
        ),
        levels: overview_levels(opts, profile.width, profile.height),
        masks: prepare_remux_layers(masks, profile, windowed, opts),
    }
}

/// An overview that is encoded has the size of the raster divided by its factor, and as many
/// blocks as it has tiles. It is made from the source wherever that has an overview of the
/// same factor; it is made from the one before it if that has half its factor and the source
/// has no overviews.
pub proof fn law_overviews_are_made_from_what_is_there(
    source: SourceInfo,
    width: u32,
    height: u32,
    tile_size: u32,
    levels: Seq<u32>,
    index: int,
)
    requires
        0 <= index < levels.len(),
        levels[index] < u32::MAX,
        levels_countable(width, height, tile_size, levels),
        source.overviews@.len() < usize::MAX,
    ensures
        ({
            let step = overview_step(source, width, height, tile_size, levels, index);
            let level = levels[index];
            &&& step.level == level
            &&& width >= level ==> step.width * level <= width < (step.width + 1) * level
            &&& height >= level ==> step.height * level <= height < (step.height + 1) * level
            &&& step.block_count == tile_count(
                step.width as nat,
                step.height as nat,
                tile_size as nat,
            )
            &&& index == 0 ==> step.origin is Source
            &&& index > 0 && level == 2 * levels[index - 1] && source.overviews@.len() == 0
                ==> step.origin is Parent
            &&& (exists|i: int|
                0 <= i < source.overviews@.len() && #[trigger] crate::remux::overview_factors(
                    source,
                )[i] == level) ==> step.origin is Source
        }),
{
    let level = levels[index];
    assert(level > 0);
    crate::cog::grid::law_overview_side_is_share_of_raster(width as nat, level as nat);
    crate::cog::grid::law_overview_side_is_share_of_raster(height as nat, level as nat);
    assert(reduced_side(width as nat, level as nat) <= u32::MAX) by {
        lemma_reduced_side_fits(width, level);
    }
    assert(reduced_side(height as nat, level as nat) <= u32::MAX) by {
        lemma_reduced_side_fits(height, level);
    }
    let factors = crate::remux::overview_factors(source);
    if exists|i: int| 0 <= i < source.overviews@.len() && #[trigger] factors[i] == level {
        crate::remux::lemma_first_position(factors, level, 0);
        let at = crate::remux::factor_position(factors, level, 0)->0;
        let read = ReadSource { layer: (at + 1) as usize, factor: level, downsample: 1 };
        assert(is_read_source(source, level, read));
    }
}

proof fn lemma_reduced_side_fits(side: u32, level: u32)
    requires
        level > 0,
    ensures
        reduced_side(side as nat, level as nat) <= u32::MAX,
{
    vstd::arithmetic::div_mod::lemma_div_pos_is_pos(side as int, level as int);
    vstd::arithmetic::div_mod::lemma_div_is_ordered_by_denominator(side as int, 1, level as int);
}

/// A tiled source keeps the tiles of an overview for one of twice its factor that follows, and
/// reduces that one by two, if it is the next. The sizes are those of the raster divided by
/// the factor.
pub proof fn law_tiled_overviews_are_halved(
    width: u32,
    height: u32,
    tile_size: u32,
    levels: Seq<u32>,
    index: int,
)
    requires
        0 <= index < levels.len(),
        levels_countable(width, height, tile_size, levels),
    ensures
        ({
            let step = tiled_step(width, height, tile_size, levels, index);
            let level = levels[index];
            &&& step.level == level
            &&& width >= level ==> step.width * level <= width < (step.width + 1) * level
            &&& height >= level ==> step.height * level <= height < (step.height + 1) * level
            &&& step.block_count == tile_count(
                step.width as nat,
                step.height as nat,
                tile_size as nat,
            )
            &&& index > 0 && level == 2 * levels[index - 1] ==> step.origin == (
            OverviewOrigin::Parent { level: levels[index - 1], downsample: 2 }) && tiled_step(
                width,
                height,
                tile_size,
                levels,
                index - 1,
            ).keep_decoded
            &&& index == 0 || level != 2 * levels[index - 1] ==> step.origin is Source
            &&& index + 1 == levels.len() ==> !step.keep_decoded
        }),
{
    let level = levels[index];
    assert(level > 0);
    crate::cog::grid::law_overview_side_is_share_of_raster(width as nat, level as nat);
    crate::cog::grid::law_overview_side_is_share_of_raster(height as nat, level as nat);
    lemma_reduced_side_fits(width, level);
    lemma_reduced_side_fits(height, level);
    if index > 0 && level == 2 * levels[index - 1] {
        assert(levels[index - 1] > 0);
        assert(levels[index] == levels[index - 1] * 2);
        assert(doubled_later(levels, index - 1));
        vstd::arithmetic::div_mod::lemma_fundamental_div_mod_converse(
            level as int,
            levels[index - 1] as int,
            2,
            0,
        );
    }
}

} // verus!
