//! The mask layers of the output: which of them are copied, cut out or made from the
//! pixels, and where they stand between the layers of the image.
use crate::cog::builder::{tile_encoding, tile_encoding_from_opts, TileEncoding};
use crate::cog::grid::{
    law_overview_side_is_share_of_raster, overview_dimensions, reduced_side, TileJob,
};
use crate::cog::mask::DatasetMasks;
use crate::cog::options::CogOutputOptions;
use crate::cog::semantics::{
    bands_countable, detect_transparency, transparency_of, TransparencySource,
};
use crate::crop::{
    law_scaled_window_shares_corner, scale_window, scaled_window, WriteWindow,
};
use crate::input::profile::{
    compression_in, input_compression, IfdInfo, RasterProfile, SourceInfo,
};
use crate::raster::{build2, sample2, Grid2, Grid3};
use crate::spool::CompressedBlock;
use crate::tiff::{Compression, Predictor, SampleFormat};
use vstd::prelude::*;

verus! {

/// The directory of a mask in the output.
#[derive(Debug, Clone, Copy, PartialEq, Eq, Structural)]
pub struct MaskDescriptor {
    pub width: u32,
    pub height: u32,
    pub tile_width: u32,
    pub tile_height: u32,
    pub bits_per_sample: u16,
    pub compression: Compression,
    pub overview: bool,
}

/// Why the masks of the output cannot be laid out.
#[derive(Debug, Clone, Copy, PartialEq, Eq, Structural)]
pub enum MaskError {
    MissingIfd { index: usize },
    NotTiled { index: usize },
    DescriptorMismatch,
    NoLayers,
    UnexpectedMaskCount,
    TooFewMasks { found: usize, needed: usize },
}

/// A layer of the output: blocks of the image, or blocks of a mask with its directory.
#[derive(Debug)]
pub enum OutputLayer {
    Rgb(Vec<CompressedBlock>),
    Mask { descriptor: MaskDescriptor, blocks: Vec<CompressedBlock> },
}

/// The directories of all masks, that of the full-size image first.
pub open spec fn mask_indices(masks: DatasetMasks) -> Seq<usize> {
    seq![masks.base_ifd_index] + masks.overview_ifd_indices@
}

/// The directories whose blocks are copied for the masks, that of the full-size image
/// first.
pub fn collect_mask_remux_layers(masks: &DatasetMasks) -> (indices: Vec<usize>)
    ensures
        indices@ == mask_indices(*masks),
{
    let mut indices: Vec<usize> = Vec::new();
    indices.push(masks.base_ifd_index);
    let mut i: usize = 0;
    while i < masks.overview_ifd_indices.len()
        invariant
            i <= masks.overview_ifd_indices@.len(),
            indices@ == seq![masks.base_ifd_index] + masks.overview_ifd_indices@.take(i as int),
        decreases masks.overview_ifd_indices@.len() - i,
    {
        indices.push(masks.overview_ifd_indices[i]);
        i = i + 1;
        assert(indices@ =~= seq![masks.base_ifd_index] + masks.overview_ifd_indices@.take(
            i as int,
        ));
    }
    assert(masks.overview_ifd_indices@.take(i as int) =~= masks.overview_ifd_indices@);
    indices
}

/// The output directory of a mask that is copied: as in the source, one bit for each
/// sample where the source does not say; the source's has to be tiled.
pub open spec fn copied_descriptor(source: SourceInfo, index: usize, overview: bool) -> Result<
    MaskDescriptor,
    MaskError,
> {
    if index >= source.ifds@.len() {
        Err(MaskError::MissingIfd { index })
    } else {
        let ifd = source.ifds@[index as int];
        match (ifd.tile_width, ifd.tile_height) {
            (Some(tile_width), Some(tile_height)) => Ok(
                MaskDescriptor {
                    width: ifd.width,
                    height: ifd.height,
                    tile_width,
                    tile_height,
                    bits_per_sample: match ifd.bits_per_sample {
                        Some(bits) => bits,
                        None => 1,
                    },
                    compression: compression_in(ifd),
                    overview,
                },
            ),
            _ => Err(MaskError::NotTiled { index }),
        }
    }
}

/// The output directory of a mask that is copied.
pub fn mask_descriptor_from_ifd(source: &SourceInfo, index: usize, overview: bool) -> (result: Result<
    MaskDescriptor,
    MaskError,
>)
    ensures
        result == copied_descriptor(*source, index, overview),
{
    if index >= source.ifds.len() {
        return Err(MaskError::MissingIfd { index });
    }
    let ifd: IfdInfo = source.ifds[index];
    match (ifd.tile_width, ifd.tile_height) {
        (Some(tile_width), Some(tile_height)) => {
            let bits_per_sample: u16 = match ifd.bits_per_sample {
                Some(bits) => bits,
                None => 1,
            };
            Ok(
                MaskDescriptor {
                    width: ifd.width,
                    height: ifd.height,
                    tile_width,
                    tile_height,
                    bits_per_sample,
                    compression: input_compression(&ifd),
                    overview,
                },
            )
        },
        _ => Err(MaskError::NotTiled { index }),
    }
}

/// Whether all of the first `end` masks have an output directory.
pub open spec fn descriptors_exist(source: SourceInfo, masks: DatasetMasks, end: int) -> bool {
    forall|i: int|
        0 <= i < end ==> copied_descriptor(
            source,
            #[trigger] mask_indices(masks)[i],
            i > 0,
        ) is Ok
}

/// Whether `error` is that of the first mask without an output directory.
pub open spec fn first_descriptor_error(
    source: SourceInfo,
    masks: DatasetMasks,
    error: MaskError,
) -> bool {
    exists|i: int|
        0 <= i < mask_indices(masks).len() && descriptors_exist(source, masks, i)
            && copied_descriptor(source, #[trigger] mask_indices(masks)[i], i > 0) == Err::<
            MaskDescriptor,
            MaskError,
        >(error)
}

/// The output directories of masks that are copied, that of the full-size image first.
pub fn mask_layer_descriptors(source: &SourceInfo, masks: &DatasetMasks) -> (result: Result<
    Vec<MaskDescriptor>,
    MaskError,
>)
    ensures
        match result {
            Ok(descriptors) => {
                &&& descriptors@.len() == mask_indices(*masks).len()
                &&& forall|i: int|
                    0 <= i < descriptors@.len() ==> copied_descriptor(
                        *source,
                        mask_indices(*masks)[i],
                        i > 0,
                    ) == Ok::<MaskDescriptor, MaskError>(#[trigger] descriptors@[i])
            },
            Err(error) => first_descriptor_error(*source, *masks, error),
        },
{
    let indices: Vec<usize> = collect_mask_remux_layers(masks);
    let mut descriptors: Vec<MaskDescriptor> = Vec::new();
    let mut i: usize = 0;
    while i < indices.len()
        invariant
            i <= indices@.len(),
            indices@ == mask_indices(*masks),
            descriptors@.len() == i,
            forall|j: int|
                0 <= j < i ==> copied_descriptor(*source, mask_indices(*masks)[j], j > 0) == Ok::<
                    MaskDescriptor,
                    MaskError,
                >(#[trigger] descriptors@[j]),
        decreases indices@.len() - i,
    {
        match mask_descriptor_from_ifd(source, indices[i], i > 0) {
            Ok(descriptor) => {
                descriptors.push(descriptor);
            },
            Err(error) => {
                proof {
                    assert forall|j: int| 0 <= j < i implies copied_descriptor(
                        *source,
                        #[trigger] mask_indices(*masks)[j],
                        j > 0,
                    ) is Ok by {
                        let known = descriptors@[j];
                    }
                    assert(descriptors_exist(*source, *masks, i as int));
                    assert(mask_indices(*masks)[i as int] == indices@[i as int]);
                }
                return Err(error);
            },
        }
        i = i + 1;
    }
    Ok(descriptors)
}

/// The layers of the output in the order of their directories: the image, its mask, the
/// overviews of the image, the overviews of the mask.
pub open spec fn interleaved(
    rgb: Seq<Vec<CompressedBlock>>,
    masks: Seq<Vec<CompressedBlock>>,
    descriptors: Seq<MaskDescriptor>,
) -> Seq<OutputLayer> {
    seq![
        OutputLayer::Rgb(rgb[0]),
        OutputLayer::Mask { descriptor: descriptors[0], blocks: masks[0] },
    ] + Seq::new((rgb.len() - 1) as nat, |i: int| OutputLayer::Rgb(rgb[i + 1])) + Seq::new(
        (masks.len() - 1) as nat,
        |i: int|
            OutputLayer::Mask { descriptor: descriptors[i + 1], blocks: masks[i + 1] },
    )
}

/// Puts the layers of the image and of the masks in the order of the output. There are
/// as many masks as layers of the image, or only one; anything else is an error.
pub fn interleave_rgb_and_mask_layers(
    rgb_layers: Vec<Vec<CompressedBlock>>,
    mask_blocks: Vec<Vec<CompressedBlock>>,
    mask_descriptors: Vec<MaskDescriptor>,
) -> (result: Result<Vec<OutputLayer>, MaskError>)
    ensures
        if mask_blocks@.len() != mask_descriptors@.len() {
            result matches Err(MaskError::DescriptorMismatch)
        } else if rgb_layers@.len() == 0 || mask_blocks@.len() == 0 {
            result matches Err(MaskError::NoLayers)
        } else if mask_blocks@.len() != 1 && mask_blocks@.len() != rgb_layers@.len() {
            result matches Err(MaskError::UnexpectedMaskCount)
        } else {
            result matches Ok(layers) && layers@ == interleaved(
                rgb_layers@,
                mask_blocks@,
                mask_descriptors@,
            )
        },
{
    if mask_blocks.len() != mask_descriptors.len() {
        return Err(MaskError::DescriptorMismatch);
    }
    if rgb_layers.len() == 0 || mask_blocks.len() == 0 {
        return Err(MaskError::NoLayers);
    }
    if mask_blocks.len() != 1 && mask_blocks.len() != rgb_layers.len() {
        return Err(MaskError::UnexpectedMaskCount);
    }
    let ghost rgb = rgb_layers@;
    let ghost masks = mask_blocks@;
    let mut rgb_left: Vec<Vec<CompressedBlock>> = rgb_layers;
    let mut masks_left: Vec<Vec<CompressedBlock>> = mask_blocks;
    let mut layers: Vec<OutputLayer> = Vec::new();
    layers.push(OutputLayer::Rgb(rgb_left.remove(0)));
    layers.push(
        OutputLayer::Mask { descriptor: mask_descriptors[0], blocks: masks_left.remove(0) },
    );
    let ghost head = seq![
        OutputLayer::Rgb(rgb[0]),
        OutputLayer::Mask { descriptor: mask_descriptors@[0], blocks: masks[0] },
    ];
    let ghost rgb_tail = Seq::new((rgb.len() - 1) as nat, |i: int| OutputLayer::Rgb(rgb[i + 1]));
    let ghost mut done: int = 0;
    proof {
        assert(rgb_left@ =~= rgb.skip(1));
        assert(masks_left@ =~= masks.skip(1));
        assert(layers@ =~= head + rgb_tail.take(0));
    }
    while rgb_left.len() > 0
        invariant
            0 <= done < rgb.len(),
            rgb_left@ == rgb.skip(done + 1),
            rgb_tail == Seq::new((rgb.len() - 1) as nat, |i: int| OutputLayer::Rgb(rgb[i + 1])),
            layers@ == head + rgb_tail.take(done),
        decreases rgb_left@.len(),
    {
        layers.push(OutputLayer::Rgb(rgb_left.remove(0)));
        proof {
            assert(rgb_left@ =~= rgb.skip(done + 2));
            assert(layers@ =~= head + rgb_tail.take(done + 1));
            done = done + 1;
        }
    }
    let ghost front = head + rgb_tail;
    let ghost mask_tail = Seq::new(
        (masks.len() - 1) as nat,
        |i: int|
            OutputLayer::Mask { descriptor: mask_descriptors@[i + 1], blocks: masks[i + 1] },
    );
    let count: usize = mask_descriptors.len();
    let mut next: usize = 1;
    proof {
        assert(rgb_tail.take(done) =~= rgb_tail);
        assert(layers@ =~= front + mask_tail.take(0));
    }
    while masks_left.len() > 0
        invariant
            1 <= next <= count,
            masks.len() == mask_descriptors@.len() == count,
            masks_left@ == masks.skip(next as int),
            mask_tail == Seq::new(
                (masks.len() - 1) as nat,
                |i: int|
                    OutputLayer::Mask {
                        descriptor: mask_descriptors@[i + 1],
                        blocks: masks[i + 1],
                    },
            ),
            layers@ == front + mask_tail.take(next - 1),
        decreases masks_left@.len(),
    {
        layers.push(
            OutputLayer::Mask { descriptor: mask_descriptors[next], blocks: masks_left.remove(0) },
        );
        next = next + 1;
        proof {
            assert(masks_left@ =~= masks.skip(next as int));
            assert(layers@ =~= front + mask_tail.take(next - 1));
        }
    }
    assert(mask_tail.take(next - 1) =~= mask_tail);
    Ok(layers)
}

/// Whether a mask has the size of a layer.
pub open spec fn has_size(descriptor: MaskDescriptor, size: (u32, u32)) -> bool {
    descriptor.width == size.0 && descriptor.height == size.1
}

/// Whether masks of the layers' sizes stand at these places: one for each layer, in their
/// order, and each the first of its size behind the one before it.
pub open spec fn match_sizes(
    descriptors: Seq<MaskDescriptor>,
    sizes: Seq<(u32, u32)>,
    places: Seq<int>,
) -> bool {
    &&& places.len() == sizes.len()
    &&& forall|k: int|
        0 <= k < places.len() ==> #[trigger] matches_at(descriptors, sizes, places, k)
}

/// Whether the mask for the layer `k` is the first of its size behind the one before it.
pub open spec fn matches_at(
    descriptors: Seq<MaskDescriptor>,
    sizes: Seq<(u32, u32)>,
    places: Seq<int>,
    k: int,
) -> bool {
    is_next(descriptors, sizes[k], place_before(places, k), places[k])
}

/// Whether the next mask of this size behind a place stands at the other.
pub open spec fn is_next(
    descriptors: Seq<MaskDescriptor>,
    size: (u32, u32),
    before: int,
    place: int,
) -> bool {
    &&& before < place < descriptors.len()
    &&& has_size(descriptors[place], size)
    &&& none_between(descriptors, size, before, place)
}

/// Whether no mask between two places has this size.
pub open spec fn none_between(
    descriptors: Seq<MaskDescriptor>,
    size: (u32, u32),
    from: int,
    to: int,
) -> bool {
    forall|j: int| from < j < to ==> !has_size(#[trigger] descriptors[j], size)
}

/// The place before the one at `k`.
pub open spec fn place_before(places: Seq<int>, k: int) -> int {
    if k == 0 {
        -1
    } else {
        places[k - 1]
    }
}

/// What stands at these places.
pub open spec fn at_places<A>(all: Seq<A>, places: Seq<int>) -> Seq<A> {
    Seq::new(places.len(), |k: int| all[places[k]])
}

/// Whether each layer has a mask of its size.
pub open spec fn sizes_matched(descriptors: Seq<MaskDescriptor>, sizes: Seq<(u32, u32)>) -> bool {
    exists|places: Seq<int>| match_sizes(descriptors, sizes, places)
}

/// Places that match sizes start with those of a shorter list of sizes.
proof fn lemma_same_places(
    descriptors: Seq<MaskDescriptor>,
    sizes: Seq<(u32, u32)>,
    found: Seq<int>,
    places: Seq<int>,
    k: int,
)
    requires
        match_sizes(descriptors, sizes.take(found.len() as int), found),
        match_sizes(descriptors, sizes, places),
        found.len() <= sizes.len(),
        0 <= k < found.len(),
    ensures
        found[k] == places[k],
    decreases k,
{
    assert(sizes.take(found.len() as int)[k] == sizes[k]);
    assert(matches_at(descriptors, sizes.take(found.len() as int), found, k));
    assert(matches_at(descriptors, sizes, places, k));
    if k > 0 {
        lemma_same_places(descriptors, sizes, found, places, k - 1);
    }
    assert(place_before(found, k) == place_before(places, k));
    assert(has_size(descriptors[found[k]], sizes[k]));
    assert(has_size(descriptors[places[k]], sizes[k]));
}

fn find_sizes(descriptors: &Vec<MaskDescriptor>, sizes: &[(u32, u32)]) -> (found: Option<
    Vec<usize>,
>)
    ensures
        match found {
            Some(places) => match_sizes(
                descriptors@,
                sizes@,
                places@.map_values(|place: usize| place as int),
            ),
            None => !sizes_matched(descriptors@, sizes@),
        },
{
    let mut places: Vec<usize> = Vec::new();
    let ghost values = Seq::<int>::empty();
    let mut next: usize = 0;
    while places.len() < sizes.len()
        invariant
            next <= descriptors@.len(),
            places@.len() <= sizes@.len(),
            values =~= places@.map_values(|place: usize| place as int),
            match_sizes(descriptors@, sizes@.take(places@.len() as int), values),
            next == place_before(values, places@.len() as int) + 1,
        decreases sizes@.len() - places@.len(),
    {
        let size: (u32, u32) = sizes[places.len()];
        let ghost first = next;
        while next < descriptors.len() && !(descriptors[next].width == size.0
            && descriptors[next].height == size.1)
            invariant
                first <= next <= descriptors@.len(),
                none_between(descriptors@, size, first - 1, next as int),
            decreases descriptors@.len() - next,
        {
            next = next + 1;
        }
        let ghost count = places@.len() as int;
        if next == descriptors.len() {
            proof {
                if sizes_matched(descriptors@, sizes@) {
                    let others = choose|others: Seq<int>|
                        match_sizes(descriptors@, sizes@, others);
                    if count > 0 {
                        lemma_same_places(descriptors@, sizes@, values, others, count - 1);
                    }
                    assert(matches_at(descriptors@, sizes@, others, count));
                    assert(place_before(others, count) == first - 1);
                    assert(has_size(descriptors@[others[count]], size));
                }
            }
            return None;
        }
        proof {
            let before = values;
            values = values.push(next as int);
            assert forall|k: int| 0 <= k < values.len() implies #[trigger] matches_at(
                descriptors@,
                sizes@.take(count + 1),
                values,
                k,
            ) by {
                assert(place_before(values, k) == place_before(before, k));
                if k < count {
                    assert(values[k] == before[k]);
                    assert(sizes@.take(count)[k] == sizes@.take(count + 1)[k]);
                    assert(matches_at(descriptors@, sizes@.take(count), before, k));
                }
            }
        }
        places.push(next);
        next = next + 1;
    }
    assert(sizes@.take(sizes@.len() as int) =~= sizes@);
    Some(places)
}

proof fn lemma_places_ascend(
    descriptors: Seq<MaskDescriptor>,
    sizes: Seq<(u32, u32)>,
    places: Seq<int>,
    k: int,
)
    requires
        match_sizes(descriptors, sizes, places),
        0 <= k < places.len(),
    ensures
        0 <= places[k] < descriptors.len(),
        forall|j: int| 0 <= j < k ==> #[trigger] places[j] < places[k],
    decreases k,
{
    assert(matches_at(descriptors, sizes, places, k));
    if k > 0 {
        lemma_places_ascend(descriptors, sizes, places, k - 1);
    }
}

/// Keeps one mask for each layer of the image, whose sizes are given. If there are more
/// masks than layers, those of the layers' sizes are kept; where a layer has none of its
/// size, the first ones are.
pub fn align_masks_to_rgb_layers(
    mask_blocks: Vec<Vec<CompressedBlock>>,
    mask_descriptors: Vec<MaskDescriptor>,
    rgb_sizes: &[(u32, u32)],
) -> (result: Result<(Vec<Vec<CompressedBlock>>, Vec<MaskDescriptor>), MaskError>)
    ensures
        if mask_blocks@.len() != mask_descriptors@.len() {
            result matches Err(MaskError::DescriptorMismatch)
        } else if mask_blocks@.len() < rgb_sizes@.len() {
            result matches Err(MaskError::TooFewMasks { found, needed }) && found
                == mask_blocks@.len() && needed == rgb_sizes@.len()
        } else if mask_blocks@.len() > rgb_sizes@.len() && sizes_matched(
            mask_descriptors@,
            rgb_sizes@,
        ) {
            result matches Ok(aligned) && exists|places: Seq<int>| #[trigger]
                match_sizes(mask_descriptors@, rgb_sizes@, places) && aligned.0@ == at_places(
                    mask_blocks@,
                    places,
                ) && aligned.1@ == at_places(mask_descriptors@, places)
        } else {
            result matches Ok(aligned) && aligned.0@ == mask_blocks@.take(rgb_sizes@.len() as int)
                && aligned.1@ == mask_descriptors@.take(rgb_sizes@.len() as int)
        },
{
    if mask_blocks.len() != mask_descriptors.len() {
        return Err(MaskError::DescriptorMismatch);
    }
    let found: usize = mask_blocks.len();
    if found < rgb_sizes.len() {
        return Err(MaskError::TooFewMasks { found, needed: rgb_sizes.len() });
    }
    let mut blocks: Vec<Vec<CompressedBlock>> = mask_blocks;
    let mut descriptors: Vec<MaskDescriptor> = mask_descriptors;
    if found > rgb_sizes.len() {
        if let Some(places) = find_sizes(&descriptors, rgb_sizes) {
            let ghost values = places@.map_values(|place: usize| place as int);
            let mut kept: usize = places.len();
            let mut i: usize = found;
            proof {
                assert(match_sizes(mask_descriptors@, rgb_sizes@, values));
                assert forall|j: int| 0 <= j < kept implies #[trigger] values[j] < i by {
                    lemma_places_ascend(mask_descriptors@, rgb_sizes@, values, j);
                }
                assert(blocks@ =~= mask_blocks@.take(i as int) + at_places(
                    mask_blocks@,
                    values.skip(kept as int),
                ));
                assert(descriptors@ =~= mask_descriptors@.take(i as int) + at_places(
                    mask_descriptors@,
                    values.skip(kept as int),
                ));
            }
            while i > 0
                invariant
                    i <= found,
                    found == mask_blocks@.len(),
                    found == mask_descriptors@.len(),
                    kept <= places@.len(),
                    values == places@.map_values(|place: usize| place as int),
                    match_sizes(mask_descriptors@, rgb_sizes@, values),
                    forall|j: int| 0 <= j < kept ==> #[trigger] values[j] < i,
                    blocks@ == mask_blocks@.take(i as int) + at_places(
                        mask_blocks@,
                        values.skip(kept as int),
                    ),
                    descriptors@ == mask_descriptors@.take(i as int) + at_places(
                        mask_descriptors@,
                        values.skip(kept as int),
                    ),
                decreases i,
            {
                i = i - 1;
                if kept > 0 && places[kept - 1] == i {
                    kept = kept - 1;
                    proof {
                        assert(values[kept as int] == i);
                        lemma_places_ascend(
                            mask_descriptors@,
                            rgb_sizes@,
                            values,
                            kept as int,
                        );
                    }
                } else {
                    proof {
                        if kept > 0 {
                            assert(values[kept - 1] == places@[kept - 1]);
                            lemma_places_ascend(
                                mask_descriptors@,
                                rgb_sizes@,
                                values,
                                kept - 1,
                            );
                        }
                    }
                    blocks.remove(i);
                    descriptors.remove(i);
                }
                assert(blocks@ =~= mask_blocks@.take(i as int) + at_places(
                    mask_blocks@,
                    values.skip(kept as int),
                ));
                assert(descriptors@ =~= mask_descriptors@.take(i as int) + at_places(
                    mask_descriptors@,
                    values.skip(kept as int),
                ));
            }
            proof {
                if kept > 0 {
                    lemma_places_ascend(mask_descriptors@, rgb_sizes@, values, 0);
                    assert(values[0] < 0);
                }
                assert(values.skip(0) =~= values);
                assert(blocks@ =~= at_places(mask_blocks@, values));
                assert(descriptors@ =~= at_places(mask_descriptors@, values));
            }
            return Ok((blocks, descriptors));
        }
    }
    blocks.truncate(rgb_sizes.len());
    descriptors.truncate(rgb_sizes.len());
    Ok((blocks, descriptors))
}

/// How the masks of the output come about.
#[derive(Debug, Clone, Copy, PartialEq, Eq, Structural)]
pub enum MaskOrigin {
    /// The blocks of the source's masks are copied.
    Copied,
    /// The window is cut out of the source's masks.
    Cropped,
    /// The masks are made from the pixels.
    Synthesized(TransparencySource),
    /// There are none.
    Absent,
}

/// How the masks of the output come about: from the masks of the source where it has
/// any, copied for the whole raster and cut out for a window; else from the pixels where
/// these say what is transparent.
pub open spec fn mask_origin(
    has_masks: bool,
    profile: RasterProfile,
    windowed: bool,
    opts: CogOutputOptions,
) -> MaskOrigin {
    if has_masks {
        if windowed {
            MaskOrigin::Cropped
        } else {
            MaskOrigin::Copied
        }
    } else {
        let source = transparency_of(
            has_masks,
            profile,
            opts.mask_from_alpha,
            opts.black_rgb_transparent,
        );
        if source is Opaque {
            MaskOrigin::Absent
        } else {
            MaskOrigin::Synthesized(source)
        }
    }
}

/// How the masks of the output come about.
pub fn prepare_remux_layers(
    masks: &Option<DatasetMasks>,
    profile: &RasterProfile,
    windowed: bool,
    opts: &CogOutputOptions,
) -> (origin: MaskOrigin)
    requires
        bands_countable(*profile),
    ensures
        origin == mask_origin(masks is Some, *profile, windowed, *opts),
{
    if masks.is_some() {
        return if windowed {
            MaskOrigin::Cropped
        } else {
            MaskOrigin::Copied
        };
    }
    let source = detect_transparency(
        false,
        profile,
        opts.mask_from_alpha,
        opts.black_rgb_transparent,
    );
    match source {
        TransparencySource::AssociatedAlpha | TransparencySource::BlackRgb => {
            MaskOrigin::Synthesized(source)
        },
        _ => MaskOrigin::Absent,
    }
}

/// The layers of an output without masks.
pub fn rgb_layers_only(rgb_layers: Vec<Vec<CompressedBlock>>) -> (layers: Vec<OutputLayer>)
    ensures
        layers@ == rgb_layers@.map_values(|blocks: Vec<CompressedBlock>| OutputLayer::Rgb(blocks)),
{
    let ghost rgb = rgb_layers@;
    let ghost wanted = rgb.map_values(|blocks: Vec<CompressedBlock>| OutputLayer::Rgb(blocks));
    let mut left: Vec<Vec<CompressedBlock>> = rgb_layers;
    let mut layers: Vec<OutputLayer> = Vec::new();
    let ghost mut done: int = 0;
    assert(left@ =~= rgb.skip(0));
    while left.len() > 0
        invariant
            0 <= done <= rgb.len(),
            left@ == rgb.skip(done),
            wanted == rgb.map_values(|blocks: Vec<CompressedBlock>| OutputLayer::Rgb(blocks)),
            layers@ == wanted.take(done),
        decreases left@.len(),
    {
        layers.push(OutputLayer::Rgb(left.remove(0)));
        proof {
            assert(left@ =~= rgb.skip(done + 1));
            assert(layers@ =~= wanted.take(done + 1));
            done = done + 1;
        }
    }
    assert(wanted.take(done) =~= wanted);
    layers
}

/// A mask layer that is encoded: the directory that it is read from, the window there,
/// the compression of its tiles, and its directory in the output.
#[derive(Debug, Clone, Copy, PartialEq, Eq, Structural)]
pub struct MaskLayerPlan {
    pub ifd_index: usize,
    pub window: Option<WriteWindow>,
    pub encoding: TileEncoding,
    pub descriptor: MaskDescriptor,
}

/// How the tiles of a mask are compressed: one sample, without a predictor.
pub open spec fn mask_encoding(opts: CogOutputOptions, tile_size: u32) -> TileEncoding {
    tile_encoding(opts, tile_size as usize, 1, Some(Predictor::Identity), SampleFormat::Uint)
}

fn mask_tile_encoding(opts: &CogOutputOptions, tile_size: u32) -> (encoding: TileEncoding)
    ensures
        encoding == mask_encoding(*opts, tile_size),
{
    tile_encoding_from_opts(
        opts,
        tile_size as usize,
        1,
        Some(Predictor::Identity),
        SampleFormat::Uint,
    )
}

/// The output directory of a mask that is encoded, with eight bits for each sample.
pub open spec fn encoded_descriptor(
    source: IfdInfo,
    width: u32,
    height: u32,
    tile_size: u32,
    overview: bool,
) -> MaskDescriptor {
    MaskDescriptor {
        width,
        height,
        tile_width: tile_size,
        tile_height: tile_size,
        bits_per_sample: 8,
        compression: compression_in(source),
        overview,
    }
}

fn encoded_mask_descriptor(
    source: &IfdInfo,
    width: u32,
    height: u32,
    tile_size: u32,
    overview: bool,
) -> (descriptor: MaskDescriptor)
    ensures
        descriptor == encoded_descriptor(*source, width, height, tile_size, overview),
{
    MaskDescriptor {
        width,
        height,
        tile_width: tile_size,
        tile_height: tile_size,
        bits_per_sample: 8,
        compression: input_compression(source),
        overview,
    }
}

/// The directory that the mask of an overview is cut out of: that of the overview's own
/// mask, or of the full-size mask where there is none.
pub open spec fn cropped_ifd(masks: DatasetMasks, overview: int) -> usize {
    if overview < masks.overview_ifd_indices@.len() {
        masks.overview_ifd_indices@[overview]
    } else {
        masks.base_ifd_index
    }
}

/// The tile size of the mask of an overview: that of its own mask in the source, else
/// that of the output.
pub open spec fn cropped_tile_size(
    source: SourceInfo,
    masks: DatasetMasks,
    blocksize: u32,
    overview: int,
) -> u32 {
    if overview < masks.overview_ifd_indices@.len() {
        match source.ifds@[masks.overview_ifd_indices@[overview] as int].tile_width {
            Some(tile_width) => tile_width,
            None => blocksize,
        }
    } else {
        blocksize
    }
}

/// The mask of overview `overview` of a cropped output.
pub open spec fn cropped_overview_plan(
    source: SourceInfo,
    masks: DatasetMasks,
    window: WriteWindow,
    out_width: u32,
    out_height: u32,
    level: u32,
    opts: CogOutputOptions,
    overview: int,
) -> MaskLayerPlan {
    let ifd_index = cropped_ifd(masks, overview);
    let tile_size = cropped_tile_size(source, masks, opts.blocksize, overview);
    MaskLayerPlan {
        ifd_index,
        window: Some(scaled_window(window, level as nat)),
        encoding: mask_encoding(opts, tile_size),
        descriptor: encoded_descriptor(
            source.ifds@[ifd_index as int],
            reduced_side(out_width as nat, level as nat) as u32,
            reduced_side(out_height as nat, level as nat) as u32,
            tile_size,
            true,
        ),
    }
}

/// Whether the masks name directories of the source.
pub open spec fn masks_in_source(source: SourceInfo, masks: DatasetMasks) -> bool {
    &&& masks.base_ifd_index < source.ifds@.len()
    &&& forall|i: int|
        0 <= i < masks.overview_ifd_indices@.len() ==> (#[trigger] masks.overview_ifd_indices@[i])
            < source.ifds@.len()
}

/// The mask layers of a cropped output: the window of the full-size mask, and for each
/// overview the scaled window of a mask of the source.
pub fn build_cropped_mask_layers(
    source: &SourceInfo,
    masks: &DatasetMasks,
    window: &WriteWindow,
    out_width: u32,
    out_height: u32,
    output_levels: &[u32],
    opts: &CogOutputOptions,
) -> (plans: Vec<MaskLayerPlan>)
    requires
        masks_in_source(*source, *masks),
        forall|i: int| 0 <= i < output_levels@.len() ==> #[trigger] output_levels@[i] > 0,
    ensures
        plans@.len() == 1 + output_levels@.len(),
        plans@[0] == (MaskLayerPlan {
            ifd_index: masks.base_ifd_index,
            window: Some(*window),
            encoding: mask_encoding(*opts, opts.blocksize),
            descriptor: encoded_descriptor(
                source.ifds@[masks.base_ifd_index as int],
                out_width,
                out_height,
                opts.blocksize,
                false,
            ),
        }),
        forall|i: int|
            0 <= i < output_levels@.len() ==> plans@[i + 1] == cropped_overview_plan(
                *source,
                *masks,
                *window,
                out_width,
                out_height,
                #[trigger] output_levels@[i],
                *opts,
                i,
            ),
{
    let base_ifd: IfdInfo = source.ifds[masks.base_ifd_index];
    let mut plans: Vec<MaskLayerPlan> = Vec::new();
    plans.push(
        MaskLayerPlan {
            ifd_index: masks.base_ifd_index,
            window: Some(*window),
            encoding: mask_tile_encoding(opts, opts.blocksize),
            descriptor: encoded_mask_descriptor(
                &base_ifd,
                out_width,
                out_height,
                opts.blocksize,
                false,
            ),
        },
    );
    let ghost first = plans@[0];
    let mut index: usize = 0;
    while index < output_levels.len()
        invariant
            index <= output_levels@.len(),
            masks_in_source(*source, *masks),
            forall|i: int| 0 <= i < output_levels@.len() ==> #[trigger] output_levels@[i] > 0,
            plans@.len() == 1 + index,
            plans@[0] == first,
            forall|i: int|
                0 <= i < index ==> plans@[i + 1] == cropped_overview_plan(
                    *source,
                    *masks,
                    *window,
                    out_width,
                    out_height,
                    #[trigger] output_levels@[i],
                    *opts,
                    i,
                ),
        decreases output_levels@.len() - index,
    {
        let level: u32 = output_levels[index];
        let own: bool = index < masks.overview_ifd_indices.len();
        let ifd_index: usize = if own {
            masks.overview_ifd_indices[index]
        } else {
            masks.base_ifd_index
        };
        let ifd: IfdInfo = source.ifds[ifd_index];
        let (width, height): (u32, u32) = overview_dimensions(out_width, out_height, level);
        let tile_size: u32 = if own {
            match ifd.tile_width {
                Some(tile_width) => tile_width,
                None => opts.blocksize,
            }
        } else {
            opts.blocksize
        };
        plans.push(
            MaskLayerPlan {
                ifd_index,
                window: Some(scale_window(window, level)),
                encoding: mask_tile_encoding(opts, tile_size),
                descriptor: encoded_mask_descriptor(&ifd, width, height, tile_size, true),
            },
        );
        index = index + 1;
    }
    plans
}

/// The window of an overview: the scaled window of the output, if there is one.
pub open spec fn synthesized_window(window: Option<WriteWindow>, level: u32) -> Option<
    WriteWindow,
> {
    match window {
        Some(whole) => Some(scaled_window(whole, level as nat)),
        None => None,
    }
}

/// The mask layers that are made from the pixels of the full-size image: one for the
/// output and one for each overview.
pub fn build_synthesized_mask_layers(
    source: &SourceInfo,
    window: Option<WriteWindow>,
    out_width: u32,
    out_height: u32,
    overview_levels: &[u32],
    opts: &CogOutputOptions,
) -> (plans: Vec<MaskLayerPlan>)
    requires
        source.well_formed(),
        forall|i: int| 0 <= i < overview_levels@.len() ==> #[trigger] overview_levels@[i] > 0,
    ensures
        plans@.len() == 1 + overview_levels@.len(),
        plans@[0] == (MaskLayerPlan {
            ifd_index: source.base_ifd,
            window,
            encoding: mask_encoding(*opts, opts.blocksize),
            descriptor: encoded_descriptor(
                source.base(),
                out_width,
                out_height,
                opts.blocksize,
                false,
            ),
        }),
        forall|i: int|
            0 <= i < overview_levels@.len() ==> plans@[i + 1] == (MaskLayerPlan {
                ifd_index: source.base_ifd,
                window: synthesized_window(window, #[trigger] overview_levels@[i]),
                encoding: mask_encoding(*opts, opts.blocksize),
                descriptor: encoded_descriptor(
                    source.base(),
                    reduced_side(out_width as nat, overview_levels@[i] as nat) as u32,
                    reduced_side(out_height as nat, overview_levels@[i] as nat) as u32,
                    opts.blocksize,
                    true,
                ),
            }),
{
    let base_ifd: IfdInfo = source.ifds[source.base_ifd];
    let encoding = mask_tile_encoding(opts, opts.blocksize);
    let mut plans: Vec<MaskLayerPlan> = Vec::new();
    plans.push(
        MaskLayerPlan {
            ifd_index: source.base_ifd,
            window,
            encoding,
            descriptor: encoded_mask_descriptor(
                &base_ifd,
                out_width,
                out_height,
                opts.blocksize,
                false,
            ),
        },
    );
    let ghost first = plans@[0];
    let mut index: usize = 0;
    while index < overview_levels.len()
        invariant
            index <= overview_levels@.len(),
            source.well_formed(),
            base_ifd == source.base(),
            encoding == mask_encoding(*opts, opts.blocksize),
            forall|i: int| 0 <= i < overview_levels@.len() ==> #[trigger] overview_levels@[i] > 0,
            plans@.len() == 1 + index,
            plans@[0] == first,
            forall|i: int|
                0 <= i < index ==> plans@[i + 1] == (MaskLayerPlan {
                    ifd_index: source.base_ifd,
                    window: synthesized_window(window, #[trigger] overview_levels@[i]),
                    encoding: mask_encoding(*opts, opts.blocksize),
                    descriptor: encoded_descriptor(
                        source.base(),
                        reduced_side(out_width as nat, overview_levels@[i] as nat) as u32,
                        reduced_side(out_height as nat, overview_levels@[i] as nat) as u32,
                        opts.blocksize,
                        true,
                    ),
                }),
        decreases overview_levels@.len() - index,
    {
        let level: u32 = overview_levels[index];
        let scaled: Option<WriteWindow> = match window {
            Some(whole) => Some(scale_window(&whole, level)),
            None => None,
        };
        let (width, height): (u32, u32) = overview_dimensions(out_width, out_height, level);
        plans.push(
            MaskLayerPlan {
                ifd_index: source.base_ifd,
                window: scaled,
                encoding,
                descriptor: encoded_mask_descriptor(&base_ifd, width, height, opts.blocksize, true),
            },
        );
        index = index + 1;
    }
    plans
}

/// The corner of a tile in the directory that its mask is read from.
pub open spec fn mask_corner(window: Option<WriteWindow>, job: TileJob) -> (int, int) {
    match window {
        Some(whole) => (whole.row_off + job.row_off, whole.col_off + job.col_off),
        None => (job.row_off as int, job.col_off as int),
    }
}

/// Row and column where the mask of a tile is read.
pub fn mask_tile_corner(window: Option<WriteWindow>, job: &TileJob) -> (corner: (usize, usize))
    requires
        mask_corner(window, *job).0 <= usize::MAX,
        mask_corner(window, *job).1 <= usize::MAX,
    ensures
        corner.0 == mask_corner(window, *job).0,
        corner.1 == mask_corner(window, *job).1,
{
    match window {
        Some(whole) => (whole.row_off + job.row_off, whole.col_off + job.col_off),
        None => (job.row_off, job.col_off),
    }
}

/// The mask value of a pixel: 255 where it is valid, 0 where it is transparent.
pub open spec fn mask_value(valid: bool) -> u8 {
    if valid {
        255
    } else {
        0
    }
}

/// The mask values of mask samples: valid where the sample is not zero.
pub fn binarize_mask_array(array: &Grid2<u8>) -> (mask: Vec<u8>)
    ensures
        mask@ == array.samples@.map_values(|value: u8| mask_value(value != 0)),
{
    let mut mask: Vec<u8> = Vec::new();
    let mut i: usize = 0;
    while i < array.samples.len()
        invariant
            i <= array.samples@.len(),
            mask@.len() == i,
            forall|j: int| 0 <= j < i ==> #[trigger] mask@[j] == mask_value(array.samples@[j] != 0),
        decreases array.samples@.len() - i,
    {
        mask.push(
            if array.samples[i] != 0 {
                255
            } else {
                0
            },
        );
        i = i + 1;
    }
    mask
}

/// The mask values of an 8-bit alpha band: valid where alpha is not zero.
pub fn alpha_to_mask_array(array: &Grid2<u8>) -> (mask: Vec<u8>)
    ensures
        mask@ == array.samples@.map_values(|value: u8| mask_value(value > 0)),
{
    let mask: Vec<u8> = binarize_mask_array(array);
    assert(mask@ =~= array.samples@.map_values(|value: u8| mask_value(value > 0)));
    mask
}

/// The mask values of a 16-bit alpha band: valid where alpha is not zero.
pub fn alpha_u16_to_mask_array(array: &Grid2<u16>) -> (mask: Vec<u8>)
    ensures
        mask@ == array.samples@.map_values(|value: u16| mask_value(value > 0)),
{
    let mut mask: Vec<u8> = Vec::new();
    let mut i: usize = 0;
    while i < array.samples.len()
        invariant
            i <= array.samples@.len(),
            mask@.len() == i,
            forall|j: int| 0 <= j < i ==> #[trigger] mask@[j] == mask_value(array.samples@[j] > 0),
        decreases array.samples@.len() - i,
    {
        mask.push(
            if array.samples[i] > 0 {
                255
            } else {
                0
            },
        );
        i = i + 1;
    }
    mask
}

/// Whether a pixel is black in its first three bands.
pub open spec fn is_black(array: Grid3<u8>, row: int, col: int) -> bool {
    array.at(row, col, 0) == 0 && array.at(row, col, 1) == 0 && array.at(row, col, 2) == 0
}

/// The mask values of an image: valid where a pixel is not black.
pub fn black_rgb_to_mask_array(array: &Grid3<u8>) -> (mask: Vec<u8>)
    requires
        array.well_formed(),
        array.bands >= 3,
    ensures
        mask@.len() == array.rows * array.cols,
        forall|r: int, c: int|
            0 <= r < array.rows && 0 <= c < array.cols ==> #[trigger] sample2(
                mask@,
                array.cols as int,
                r,
                c,
            ) == mask_value(!is_black(*array, r, c)),
{
    let rows: usize = array.rows;
    let cols: usize = array.cols;
    let length: usize = array.samples.len();
    proof {
        let cells = rows * cols;
        assert(0 <= cells) by (nonlinear_arith)
            requires
                cells == rows * cols,
        ;
        assert(cells <= cells * array.bands) by (nonlinear_arith)
            requires
                0 <= cells,
                1 <= array.bands,
        ;
    }
    let pick = |r: usize, c: usize| -> (value: u8)
        requires
            r < rows,
            c < cols,
        ensures
            value == mask_value(!is_black(*array, r as int, c as int)),
        {
            if array.get(r, c, 0) == 0 && array.get(r, c, 1) == 0 && array.get(r, c, 2) == 0 {
                0
            } else {
                255
            }
        };
    build2(rows, cols, pick)
}

/// A mask tile, padded on the right and below with transparent pixels to `tile_size` by
/// `tile_size`.
pub fn pad_mask_tile(samples: &Vec<u8>, rows: usize, cols: usize, tile_size: usize) -> (padded: Vec<
    u8,
>)
    requires
        samples@.len() == rows * cols,
        rows <= tile_size,
        cols <= tile_size,
        tile_size * tile_size <= usize::MAX,
    ensures
        padded@.len() == tile_size * tile_size,
        forall|r: int, c: int|
            0 <= r < tile_size && 0 <= c < tile_size ==> #[trigger] sample2(
                padded@,
                tile_size as int,
                r,
                c,
            ) == (if r < rows && c < cols {
                sample2(samples@, cols as int, r, c)
            } else {
                0
            }),
{
    if rows == tile_size && cols == tile_size {
        return samples.clone();
    }
    let pick = |r: usize, c: usize| -> (value: u8)
        requires
            r < tile_size,
            c < tile_size,
        ensures
            value == (if r < rows && c < cols {
                sample2(samples@, cols as int, r as int, c as int)
            } else {
                0
            }),
        {
            if r < rows && c < cols {
                let length: usize = samples.len();
                proof {
                    crate::raster::lemma_cell2(rows as int, cols as int, r as int, c as int);
                    crate::arith::lemma_mul_bound(r as int, cols as int, rows as int, cols as int);
                }
                samples[r * cols + c]
            } else {
                0
            }
        };
    build2(tile_size, tile_size, pick)
}

/// A tile of a mask is read where the crop is: its pixels lie as far from the corner of the
/// window as they lie from that of the mask.
pub proof fn law_mask_tile_shows_window(window: Option<WriteWindow>, job: TileJob, x: int, y: int)
    ensures
        ({
            let (row, col) = mask_corner(window, job);
            &&& window matches Some(whole) ==> row + (y - job.row_off) == whole.row_off + y && col
                + (x - job.col_off) == whole.col_off + x
            &&& window is None ==> row + (y - job.row_off) == y && col + (x - job.col_off) == x
        }),
{
}

/// The masks of a crop come from the window: that of an overview is read from the mask of the
/// same overview of the source, or from the full-size mask where there is none, in the window
/// that is smaller by the overview's factor, and has the size of the overview.
pub proof fn law_cropped_masks_follow_overviews(
    source: SourceInfo,
    masks: DatasetMasks,
    window: WriteWindow,
    out_width: u32,
    out_height: u32,
    level: u32,
    opts: CogOutputOptions,
    overview: int,
)
    requires
        level > 0,
        0 <= overview,
        masks_in_source(source, masks),
    ensures
        ({
            let plan = cropped_overview_plan(
                source,
                masks,
                window,
                out_width,
                out_height,
                level,
                opts,
                overview,
            );
            &&& overview < masks.overview_ifd_indices@.len() ==> plan.ifd_index
                == masks.overview_ifd_indices@[overview]
            &&& overview >= masks.overview_ifd_indices@.len() ==> plan.ifd_index
                == masks.base_ifd_index
            &&& plan.window matches Some(part) && part.col_off * level <= window.col_off < (
            part.col_off + 1) * level && part.row_off * level <= window.row_off < (part.row_off + 1)
                * level && part.width * level <= window.width < (part.width + 1) * level
                && part.height * level <= window.height < (part.height + 1) * level
            &&& out_width >= level ==> plan.descriptor.width * level <= out_width < (
            plan.descriptor.width + 1) * level
            &&& out_height >= level ==> plan.descriptor.height * level <= out_height < (
            plan.descriptor.height + 1) * level
            &&& out_width < level ==> plan.descriptor.width == 1
            &&& out_height < level ==> plan.descriptor.height == 1
            &&& plan.descriptor.overview
            &&& plan.descriptor.bits_per_sample == 8
            &&& plan.descriptor.tile_width == plan.descriptor.tile_height
            &&& plan.encoding.tile_width == plan.descriptor.tile_width
            &&& plan.encoding.samples_per_pixel == 1
        }),
{
    law_scaled_window_shares_corner(window, level as nat);
    law_overview_side_is_share_of_raster(out_width as nat, level as nat);
    law_overview_side_is_share_of_raster(out_height as nat, level as nat);
}

/// A mask has two values: opaque where its sample, or the alpha sample, is not zero, and
/// transparent where it is.
pub proof fn law_mask_values_are_opaque_or_transparent(valid: bool)
    ensures
        mask_value(valid) == 255 <==> valid,
        mask_value(valid) == 0 <==> !valid,
{
}

/// The first image is followed by its mask, then come the overviews, and behind them their
/// masks, each kind in its own order.
pub proof fn law_layers_are_interleaved_in_order(
    rgb: Seq<Vec<CompressedBlock>>,
    masks: Seq<Vec<CompressedBlock>>,
    descriptors: Seq<MaskDescriptor>,
    i: int,
    j: int,
)
    requires
        0 < rgb.len(),
        0 < masks.len(),
        1 <= i < rgb.len(),
        1 <= j < masks.len(),
    ensures
        ({
            let layers = interleaved(rgb, masks, descriptors);
            &&& layers.len() == rgb.len() + masks.len()
            &&& layers[0] == OutputLayer::Rgb(rgb[0])
            &&& layers[1] == (OutputLayer::Mask { descriptor: descriptors[0], blocks: masks[0] })
            &&& layers[1 + i] == OutputLayer::Rgb(rgb[i])
            &&& layers[rgb.len() + j] == (OutputLayer::Mask {
                descriptor: descriptors[j],
                blocks: masks[j],
            })
        }),
{
}

/// Masks that are kept have the sizes of the layers, each that of its own layer, and stand in
/// the order in which the source has them.
pub proof fn law_kept_masks_have_layer_sizes(
    descriptors: Seq<MaskDescriptor>,
    sizes: Seq<(u32, u32)>,
    places: Seq<int>,
    k: int,
)
    requires
        match_sizes(descriptors, sizes, places),
        0 <= k < sizes.len(),
    ensures
        ({
            let kept = at_places(descriptors, places);
            &&& kept.len() == sizes.len()
            &&& kept[k].width == sizes[k].0
            &&& kept[k].height == sizes[k].1
            &&& 0 <= places[k] < descriptors.len()
            &&& k > 0 ==> places[k - 1] < places[k]
        }),
{
    lemma_places_ascend(descriptors, sizes, places, k);
    assert(matches_at(descriptors, sizes, places, k));
}

/// Where the masks of the output come from: the source's own masks are copied, or cut if a
/// window is; where it has none, a mask is made only if alpha or black pixels tell one.
pub proof fn law_masks_come_from_the_source_first(
    has_masks: bool,
    profile: RasterProfile,
    windowed: bool,
    opts: CogOutputOptions,
)
    ensures
        ({
            let origin = mask_origin(has_masks, profile, windowed, opts);
            &&& origin is Copied <==> has_masks && !windowed
            &&& origin is Cropped <==> has_masks && windowed
            &&& origin matches MaskOrigin::Synthesized(source) ==> !has_masks && (
            source is AssociatedAlpha && opts.mask_from_alpha || source is BlackRgb
                && opts.black_rgb_transparent)
            &&& origin is Absent ==> !has_masks
        }),
{
}

/// A mask that is copied keeps the size, the tiles and the compression of its directory.
pub proof fn law_copied_masks_keep_their_directory(
    source: SourceInfo,
    index: usize,
    overview: bool,
    descriptor: MaskDescriptor,
)
    requires
        copied_descriptor(source, index, overview) == Ok::<MaskDescriptor, MaskError>(descriptor),
    ensures
        ({
            let ifd = source.ifds@[index as int];
            &&& index < source.ifds@.len()
            &&& descriptor.width == ifd.width
            &&& descriptor.height == ifd.height
            &&& ifd.tile_width == Some(descriptor.tile_width)
            &&& ifd.tile_height == Some(descriptor.tile_height)
            &&& ifd.bits_per_sample is Some ==> ifd.bits_per_sample == Some(
                descriptor.bits_per_sample,
            )
            &&& descriptor.overview == overview
        }),
{
}

/// A pixel is black if its first three bands are zero, and not if one of them is set.
pub proof fn law_black_pixels_are_zero_in_three_bands(
    array: Grid3<u8>,
    row: int,
    col: int,
    band: int,
)
    requires
        0 <= band < 3,
    ensures
        array.at(row, col, band) != 0 ==> !is_black(array, row, col),
        (forall|b: int| 0 <= b < 3 ==> #[trigger] array.at(row, col, b) == 0) ==> is_black(
            array,
            row,
            col,
        ),
{
}

/// The mask of an overview of a window is made in the smaller window that begins with the
/// pixel that holds the window's corner; without a window all of the overview is used.
pub proof fn law_overview_masks_are_made_in_smaller_windows(
    window: Option<WriteWindow>,
    level: u32,
)
    requires
        level > 0,
    ensures
        window is None <==> synthesized_window(window, level) is None,
        (window, synthesized_window(window, level)) matches (Some(whole), Some(part)) ==> {
            &&& part.col_off * level <= whole.col_off < (part.col_off + 1) * level
            &&& part.row_off * level <= whole.row_off < (part.row_off + 1) * level
            &&& part.width * level <= whole.width < (part.width + 1) * level
            &&& part.height * level <= whole.height < (part.height + 1) * level
        },
{
    if let Some(whole) = window {
        crate::crop::lemma_share(whole.col_off as int, level as int);
        crate::crop::lemma_share(whole.row_off as int, level as int);
        crate::crop::lemma_share(whole.width as int, level as int);
        crate::crop::lemma_share(whole.height as int, level as int);
    }
}

} // verus!
