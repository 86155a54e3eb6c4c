//! The transparency masks of the source: which directories hold them, and what is wrong
//! with them.
use crate::input::profile::{IfdInfo, SourceInfo};
use vstd::prelude::*;

verus! {

/// The bit of the NewSubfileType tag that marks a mask.
pub const MASK_FLAG: u64 = 4;

/// The bit of the NewSubfileType tag that marks a reduced image.
pub const REDUCED_RESOLUTION_FLAG: u64 = 1;

/// The PhotometricInterpretation of a mask.
pub const PHOTOMETRIC_MASK: u16 = 4;

/// The directories of the masks of a source: that of the full-size image, and one for
/// each overview, in the order of the overviews.
#[derive(Debug)]
pub struct DatasetMasks {
    pub base_ifd_index: usize,
    pub overview_ifd_indices: Vec<usize>,
}

/// The NewSubfileType of a directory, zero where it has none.
pub open spec fn subfile_bits(ifd: IfdInfo) -> u64 {
    match ifd.new_subfile_type {
        Some(bits) => bits,
        None => 0,
    }
}

/// Whether a directory holds a transparency mask.
pub open spec fn is_mask(ifd: IfdInfo) -> bool {
    ||| subfile_bits(ifd) & MASK_FLAG != 0
    ||| ifd.subfile_type == Some(4u16)
    ||| ifd.samples_per_pixel == 1 && ifd.photometric == Some(PHOTOMETRIC_MASK)
}

/// Whether a directory holds an image of reduced resolution.
pub open spec fn is_reduced(ifd: IfdInfo) -> bool {
    subfile_bits(ifd) & REDUCED_RESOLUTION_FLAG != 0 || ifd.subfile_type == Some(2u16)
}

/// The NewSubfileType of a directory.
pub fn new_subfile_type(ifd: &IfdInfo) -> (bits: u64)
    ensures
        bits == subfile_bits(*ifd),
{
    match ifd.new_subfile_type {
        Some(bits) => bits,
        None => 0,
    }
}

fn code_is(code: Option<u16>, expected: u16) -> (is: bool)
    ensures
        is == (code == Some(expected)),
{
    match code {
        Some(value) => value == expected,
        None => false,
    }
}

/// Whether a directory holds a transparency mask.
pub fn is_transparency_mask_ifd(ifd: &IfdInfo) -> (mask: bool)
    ensures
        mask == is_mask(*ifd),
{
    if new_subfile_type(ifd) & MASK_FLAG != 0 {
        return true;
    }
    if code_is(ifd.subfile_type, 4) {
        return true;
    }
    ifd.samples_per_pixel == 1 && code_is(ifd.photometric, PHOTOMETRIC_MASK)
}

/// Whether a directory holds an image of reduced resolution.
pub fn has_reduced_resolution(ifd: &IfdInfo) -> (reduced: bool)
    ensures
        reduced == is_reduced(*ifd),
{
    if new_subfile_type(ifd) & REDUCED_RESOLUTION_FLAG != 0 {
        return true;
    }
    code_is(ifd.subfile_type, 2)
}

/// The directories before `end` that hold a mask of the full-size image.
pub open spec fn full_masks(source: SourceInfo, end: int) -> Seq<usize>
    decreases end,
{
    if end <= 0 {
        Seq::empty()
    } else {
        let front = full_masks(source, end - 1);
        let ifd = source.ifds@[end - 1];
        if end - 1 != source.base_ifd && is_mask(ifd) && !is_reduced(ifd) && ifd.width
            == source.base().width && ifd.height == source.base().height {
            front.push((end - 1) as usize)
        } else {
            front
        }
    }
}

/// A directory with a reduced mask: its index, and the mask's width and height.
pub type ReducedMask = (usize, u32, u32);

/// The directories before `end` that hold a mask of reduced resolution.
pub open spec fn reduced_masks(source: SourceInfo, end: int) -> Seq<ReducedMask>
    decreases end,
{
    if end <= 0 {
        Seq::empty()
    } else {
        let front = reduced_masks(source, end - 1);
        let ifd = source.ifds@[end - 1];
        if end - 1 != source.base_ifd && is_mask(ifd) && is_reduced(ifd) {
            front.push(((end - 1) as usize, ifd.width, ifd.height))
        } else {
            front
        }
    }
}

/// The first mask of the given size, from `from` on.
pub open spec fn mask_of_size(
    masks: Seq<ReducedMask>,
    width: u32,
    height: u32,
    from: int,
) -> Option<int>
    decreases masks.len() - from,
{
    if from < 0 || from >= masks.len() {
        None
    } else if masks[from].1 == width && masks[from].2 == height {
        Some(from)
    } else {
        mask_of_size(masks, width, height, from + 1)
    }
}

/// For each overview in turn the first mask of its size that no earlier overview has
/// taken; none where there is no such mask.
pub open spec fn assigned_masks(masks: Seq<ReducedMask>, overviews: Seq<IfdInfo>) -> Option<
    Seq<usize>,
>
    decreases overviews.len(),
{
    if overviews.len() == 0 {
        Some(Seq::empty())
    } else {
        match mask_of_size(masks, overviews[0].width, overviews[0].height, 0) {
            None => None,
            Some(position) => match assigned_masks(
                masks.remove(position),
                overviews.drop_first(),
            ) {
                None => None,
                Some(rest) => Some(seq![masks[position].0] + rest),
            },
        }
    }
}

/// The masks of a source: exactly one of the size of the image, and as many reduced
/// masks as overviews, one of the size of each. Without overviews reduced masks do not
/// count.
pub open spec fn dataset_masks(source: SourceInfo) -> Option<(usize, Seq<usize>)> {
    let count = source.ifds@.len() as int;
    let full = full_masks(source, count);
    let reduced = reduced_masks(source, count);
    if full.len() != 1 {
        None
    } else if source.overviews@.len() == 0 {
        Some((full[0], Seq::empty()))
    } else if reduced.len() != source.overviews@.len() {
        None
    } else {
        match assigned_masks(reduced, source.overviews@) {
            None => None,
            Some(indices) => Some((full[0], indices)),
        }
    }
}

proof fn lemma_full_masks_grow(source: SourceInfo, end: int, later: int)
    requires
        0 <= end <= later,
    ensures
        full_masks(source, end).len() <= full_masks(source, later).len(),
    decreases later,
{
    if end < later {
        lemma_full_masks_grow(source, end, later - 1);
    }
}

proof fn lemma_mask_of_size(masks: Seq<ReducedMask>, width: u32, height: u32, from: int)
    ensures
        mask_of_size(masks, width, height, from) matches Some(position) ==> {
            &&& from <= position < masks.len()
            &&& masks[position].1 == width
            &&& masks[position].2 == height
        },
    decreases masks.len() - from,
{
    if 0 <= from < masks.len() && !(masks[from].1 == width && masks[from].2 == height) {
        lemma_mask_of_size(masks, width, height, from + 1);
    }
}

fn find_mask_of_size(masks: &Vec<ReducedMask>, width: u32, height: u32) -> (position: Option<usize>)
    ensures
        match mask_of_size(masks@, width, height, 0) {
            Some(expected) => position matches Some(found) && found == expected && found
                < masks@.len(),
            None => position is None,
        },
{
    let mut i: usize = 0;
    while i < masks.len()
        invariant
            i <= masks@.len(),
            mask_of_size(masks@, width, height, 0) == mask_of_size(
                masks@,
                width,
                height,
                i as int,
            ),
        decreases masks@.len() - i,
    {
        if masks[i].1 == width && masks[i].2 == height {
            return Some(i);
        }
        i = i + 1;
    }
    None
}

/// Finds the masks of a source.
pub fn discover_dataset_masks(source: &SourceInfo) -> (masks: Option<DatasetMasks>)
    requires
        source.well_formed(),
    ensures
        match dataset_masks(*source) {
            Some(expected) => masks matches Some(found) && found.base_ifd_index == expected.0
                && found.overview_ifd_indices@ == expected.1,
            None => masks is None,
        },
{
    let base: IfdInfo = source.ifds[source.base_ifd];
    let count: usize = source.ifds.len();
    let mut base_mask: Option<usize> = None;
    let mut reduced: Vec<ReducedMask> = Vec::new();
    let mut index: usize = 0;
    while index < count
        invariant
            index <= count,
            count == source.ifds@.len(),
            source.well_formed(),
            base == source.base(),
            reduced@ == reduced_masks(*source, index as int),
            match base_mask {
                Some(found) => full_masks(*source, index as int) == seq![found],
                None => full_masks(*source, index as int) == Seq::<usize>::empty(),
            },
        decreases count - index,
    {
        let ifd: IfdInfo = source.ifds[index];
        if index != source.base_ifd && is_transparency_mask_ifd(&ifd) {
            if has_reduced_resolution(&ifd) {
                reduced.push((index, ifd.width, ifd.height));
            } else if ifd.width == base.width && ifd.height == base.height {
                if base_mask.is_some() {
                    proof {
                        lemma_full_masks_grow(*source, index + 1, count as int);
                    }
                    return None;
                }
                base_mask = Some(index);
                assert(Seq::<usize>::empty().push(index) =~= seq![index]);
            }
        }
        index = index + 1;
    }
    let base_mask_index: usize = match base_mask {
        None => {
            return None;
        },
        Some(found) => found,
    };
    let overview_count: usize = source.overviews.len();
    if overview_count == 0 {
        return Some(
            DatasetMasks { base_ifd_index: base_mask_index, overview_ifd_indices: Vec::new() },
        );
    }
    if reduced.len() != overview_count {
        return None;
    }
    let ghost all = reduced@;
    let mut ordered: Vec<usize> = Vec::new();
    let mut next: usize = 0;
    proof {
        assert(source.overviews@.skip(0) =~= source.overviews@);
        lemma_prepend_nothing(assigned_masks(reduced@, source.overviews@));
    }
    while next < overview_count
        invariant
            next <= overview_count,
            0 < overview_count == source.overviews@.len(),
            full_masks(*source, source.ifds@.len() as int) == seq![base_mask_index],
            all == reduced_masks(*source, source.ifds@.len() as int),
            all.len() == overview_count,
            assigned_masks(all, source.overviews@) == prepend(
                ordered@,
                assigned_masks(reduced@, source.overviews@.skip(next as int)),
            ),
        decreases overview_count - next,
    {
        let rgb: IfdInfo = source.overviews[next];
        let ghost rest = source.overviews@.skip(next as int);
        assert(rest[0] == rgb);
        assert(rest.drop_first() =~= source.overviews@.skip(next + 1));
        match find_mask_of_size(&reduced, rgb.width, rgb.height) {
            None => {
                return None;
            },
            Some(position) => {
                let ghost before = ordered@;
                let taken: ReducedMask = reduced.remove(position);
                ordered.push(taken.0);
                proof {
                    match assigned_masks(reduced@, rest.drop_first()) {
                        None => {},
                        Some(tail) => {
                            assert(before + (seq![taken.0] + tail) =~= before.push(taken.0) + tail);
                        },
                    }
                }
            },
        }
        next = next + 1;
    }
    proof {
        assert(source.overviews@.skip(next as int) =~= Seq::<IfdInfo>::empty());
        assert(ordered@ + Seq::<usize>::empty() =~= ordered@);
    }
    Some(DatasetMasks { base_ifd_index: base_mask_index, overview_ifd_indices: ordered })
}

spec fn prepend(front: Seq<usize>, back: Option<Seq<usize>>) -> Option<Seq<usize>> {
    match back {
        None => None,
        Some(indices) => Some(front + indices),
    }
}

proof fn lemma_prepend_nothing(back: Option<Seq<usize>>)
    ensures
        prepend(Seq::empty(), back) == back,
{
    if let Some(indices) = back {
        assert(Seq::<usize>::empty() + indices =~= indices);
    }
}

proof fn lemma_assigned_masks(masks: Seq<ReducedMask>, overviews: Seq<IfdInfo>)
    requires
        forall|i: int, j: int|
            0 <= i < j < masks.len() ==> (#[trigger] masks[i]).0 != (#[trigger] masks[j]).0,
    ensures
        assigned_masks(masks, overviews) matches Some(indices) ==> {
            &&& indices.len() == overviews.len()
            &&& forall|k: int|
                0 <= k < indices.len() ==> exists|i: int|
                    0 <= i < masks.len() && (#[trigger] masks[i]).0 == #[trigger] indices[k]
                        && masks[i].1 == overviews[k].width && masks[i].2 == overviews[k].height
            &&& forall|k: int, l: int|
                0 <= k < l < indices.len() ==> #[trigger] indices[k] != #[trigger] indices[l]
        },
    decreases overviews.len(),
{
    if overviews.len() > 0 {
        lemma_mask_of_size(masks, overviews[0].width, overviews[0].height, 0);
        if let Some(position) = mask_of_size(masks, overviews[0].width, overviews[0].height, 0) {
            let left = masks.remove(position);
            let rest = overviews.drop_first();
            assert forall|i: int, j: int| 0 <= i < j < left.len() implies (#[trigger] left[i]).0
                != (#[trigger] left[j]).0 by {
                let a = if i < position {
                    i
                } else {
                    i + 1
                };
                let b = if j < position {
                    j
                } else {
                    j + 1
                };
                assert(left[i] == masks[a]);
                assert(left[j] == masks[b]);
            }
            lemma_assigned_masks(left, rest);
            if let Some(tail) = assigned_masks(left, rest) {
                let indices = seq![masks[position].0] + tail;
                assert forall|k: int| 0 <= k < indices.len() implies exists|i: int|
                    0 <= i < masks.len() && (#[trigger] masks[i]).0 == #[trigger] indices[k]
                        && masks[i].1 == overviews[k].width && masks[i].2 == overviews[k].height by {
                    if k == 0 {
                        assert(masks[position].0 == indices[0]);
                    } else {
                        assert(indices[k] == tail[k - 1]);
                        let i = choose|i: int|
                            0 <= i < left.len() && (#[trigger] left[i]).0 == tail[k - 1]
                                && left[i].1 == rest[k - 1].width && left[i].2 == rest[k
                                - 1].height;
                        let a = if i < position {
                            i
                        } else {
                            i + 1
                        };
                        assert(left[i] == masks[a]);
                        assert(rest[k - 1] == overviews[k]);
                    }
                }
                assert forall|k: int, l: int| 0 <= k < l < indices.len() implies #[trigger] indices[k]
                    != #[trigger] indices[l] by {
                    assert(indices[l] == tail[l - 1]);
                    if k == 0 {
                        let i = choose|i: int|
                            0 <= i < left.len() && (#[trigger] left[i]).0 == tail[l - 1]
                                && left[i].1 == rest[l - 1].width && left[i].2 == rest[l
                                - 1].height;
                        let a = if i < position {
                            i
                        } else {
                            i + 1
                        };
                        assert(left[i] == masks[a]);
                        assert(masks[a].0 != masks[position].0) by {
                            if a < position {
                                assert(masks[a].0 != masks[position].0);
                            } else {
                                assert(masks[position].0 != masks[a].0);
                            }
                        }
                    } else {
                        assert(indices[k] == tail[k - 1]);
                    }
                }
            }
        }
    }
}

proof fn lemma_reduced_masks(source: SourceInfo, end: int)
    requires
        0 <= end <= source.ifds@.len() <= usize::MAX,
    ensures
        forall|i: int|
            0 <= i < reduced_masks(source, end).len() ==> {
                let mask = #[trigger] reduced_masks(source, end)[i];
                &&& mask.0 < end
                &&& mask.0 != source.base_ifd
                &&& is_mask(source.ifds@[mask.0 as int])
                &&& is_reduced(source.ifds@[mask.0 as int])
                &&& mask.1 == source.ifds@[mask.0 as int].width
                &&& mask.2 == source.ifds@[mask.0 as int].height
            },
        forall|i: int, j: int|
            0 <= i < j < reduced_masks(source, end).len() ==> (#[trigger] reduced_masks(
                source,
                end,
            )[i]).0 < (#[trigger] reduced_masks(source, end)[j]).0,
    decreases end,
{
    if end > 0 {
        lemma_reduced_masks(source, end - 1);
    }
}

/// The masks that are found for the overviews are different directories, none of them
/// the image itself, and each is a mask of its overview's size.
pub proof fn law_masks_match_overviews(source: SourceInfo)
    requires
        source.well_formed(),
        source.ifds@.len() <= usize::MAX,
    ensures
        dataset_masks(source) matches Some(masks) ==> {
            &&& masks.1.len() == source.overviews@.len()
            &&& forall|k: int|
                0 <= k < masks.1.len() ==> {
                    let ifd = source.ifds@[(#[trigger] masks.1[k]) as int];
                    &&& masks.1[k] < source.ifds@.len()
                    &&& masks.1[k] != source.base_ifd
                    &&& is_mask(ifd)
                    &&& ifd.width == source.overviews@[k].width
                    &&& ifd.height == source.overviews@[k].height
                }
            &&& forall|k: int, l: int|
                0 <= k < l < masks.1.len() ==> #[trigger] masks.1[k] != #[trigger] masks.1[l]
        },
{
    let count = source.ifds@.len() as int;
    lemma_reduced_masks(source, count);
    let reduced = reduced_masks(source, count);
    lemma_assigned_masks(reduced, source.overviews@);
    if let Some(masks) = dataset_masks(source) {
        if source.overviews@.len() > 0 {
            assert forall|k: int| 0 <= k < masks.1.len() implies {
                let ifd = source.ifds@[(#[trigger] masks.1[k]) as int];
                &&& masks.1[k] < source.ifds@.len()
                &&& masks.1[k] != source.base_ifd
                &&& is_mask(ifd)
                &&& ifd.width == source.overviews@[k].width
                &&& ifd.height == source.overviews@[k].height
            } by {
                let i = choose|i: int|
                    0 <= i < reduced.len() && (#[trigger] reduced[i]).0 == masks.1[k]
                        && reduced[i].1 == source.overviews@[k].width && reduced[i].2
                        == source.overviews@[k].height;
                assert(reduced[i].0 == masks.1[k]);
            }
        }
    }
}

/// How grave an issue is.
#[derive(Debug, Clone, Copy, PartialEq, Eq, Structural)]
pub enum ValidationLevel {
    Warning,
    Error,
}

/// What is wrong with the masks of a source.
#[derive(Debug, Clone, Copy, PartialEq, Eq, Structural)]
pub enum MaskIssue {
    MultipleFullMasks,
    NotTiled,
    OverviewCountMismatch { masks: usize, overviews: usize },
    OverviewUnmatched { overview: usize, width: u32, height: u32 },
}

impl MaskIssue {
    /// The gravity of an issue.
    pub fn level(self) -> (level: ValidationLevel)
        ensures
            level == (if self is MultipleFullMasks || self is NotTiled {
                ValidationLevel::Error
            } else {
                ValidationLevel::Warning
            }),
    {
        match self {
            MaskIssue::MultipleFullMasks => ValidationLevel::Error,
            MaskIssue::NotTiled => ValidationLevel::Error,
            _ => ValidationLevel::Warning,
        }
    }
}

/// One issue for each of the first `end` overviews whose size no reduced mask has.
pub open spec fn unmatched_overviews(
    masks: Seq<ReducedMask>,
    overviews: Seq<IfdInfo>,
    end: int,
) -> Seq<MaskIssue>
    decreases end,
{
    if end <= 0 {
        Seq::empty()
    } else {
        let front = unmatched_overviews(masks, overviews, end - 1);
        let overview = overviews[end - 1];
        if mask_of_size(masks, overview.width, overview.height, 0) is None {
            front.push(
                MaskIssue::OverviewUnmatched {
                    overview: (end - 1) as usize,
                    width: overview.width,
                    height: overview.height,
                },
            )
        } else {
            front
        }
    }
}

/// What is wrong with the masks of a source: each full-size mask beyond the first, the
/// last one where it is not tiled, a different number of overviews and reduced masks,
/// and each overview without a mask. Without a full-size mask nothing is wrong.
pub open spec fn mask_issues(source: SourceInfo) -> Seq<MaskIssue> {
    let count = source.ifds@.len() as int;
    let full = full_masks(source, count);
    let reduced = reduced_masks(source, count);
    if full.len() == 0 {
        Seq::empty()
    } else {
        let multiple = Seq::new((full.len() - 1) as nat, |i: int| MaskIssue::MultipleFullMasks);
        let not_tiled = if source.ifds@[full.last() as int].tiled {
            Seq::empty()
        } else {
            seq![MaskIssue::NotTiled]
        };
        let mismatch = if source.overviews@.len() > 0 && reduced.len() != source.overviews@.len() {
            seq![
                MaskIssue::OverviewCountMismatch {
                    masks: reduced.len() as usize,
                    overviews: source.overviews@.len() as usize,
                },
            ]
        } else {
            Seq::empty()
        };
        multiple + not_tiled + mismatch + unmatched_overviews(
            reduced,
            source.overviews@,
            source.overviews@.len() as int,
        )
    }
}

/// Appends what is wrong with the masks of a source.
pub fn validate_dataset_masks(source: &SourceInfo, issues: &mut Vec<MaskIssue>)
    requires
        source.well_formed(),
    ensures
        final(issues)@ == old(issues)@ + mask_issues(*source),
{
    let base: IfdInfo = source.ifds[source.base_ifd];
    let count: usize = source.ifds.len();
    let mut base_mask: Option<usize> = None;
    let mut reduced: Vec<ReducedMask> = Vec::new();
    let mut index: usize = 0;
    while index < count
        invariant
            index <= count,
            count == source.ifds@.len(),
            source.well_formed(),
            base == source.base(),
            reduced@ == reduced_masks(*source, index as int),
            match base_mask {
                Some(found) => {
                    let full = full_masks(*source, index as int);
                    &&& full.len() > 0
                    &&& full.last() == found
                    &&& found < count
                    &&& issues@ == old(issues)@ + Seq::new(
                        (full.len() - 1) as nat,
                        |i: int| MaskIssue::MultipleFullMasks,
                    )
                },
                None => full_masks(*source, index as int).len() == 0 && issues@ == old(issues)@,
            },
        decreases count - index,
    {
        let ifd: IfdInfo = source.ifds[index];
        if index != source.base_ifd && is_transparency_mask_ifd(&ifd) {
            if has_reduced_resolution(&ifd) {
                reduced.push((index, ifd.width, ifd.height));
            } else if ifd.width == base.width && ifd.height == base.height {
                if base_mask.is_some() {
                    issues.push(MaskIssue::MultipleFullMasks);
                }
                base_mask = Some(index);
            }
        }
        index = index + 1;
    }
    let base_mask_index: usize = match base_mask {
        None => {
            assert(old(issues)@ + Seq::<MaskIssue>::empty() =~= old(issues)@);
            return ;
        },
        Some(found) => found,
    };
    if !source.ifds[base_mask_index].tiled {
        issues.push(MaskIssue::NotTiled);
    }
    let overview_count: usize = source.overviews.len();
    let masks: usize = reduced.len();
    if overview_count > 0 && masks != overview_count {
        issues.push(MaskIssue::OverviewCountMismatch { masks, overviews: overview_count });
    }
    let ghost before = issues@;
    let mut next: usize = 0;
    assert(before + Seq::<MaskIssue>::empty() =~= before);
    while next < overview_count
        invariant
            next <= overview_count,
            overview_count == source.overviews@.len(),
            issues@ == before + unmatched_overviews(reduced@, source.overviews@, next as int),
        decreases overview_count - next,
    {
        let rgb: IfdInfo = source.overviews[next];
        if find_mask_of_size(&reduced, rgb.width, rgb.height).is_none() {
            issues.push(
                MaskIssue::OverviewUnmatched {
                    overview: next,
                    width: rgb.width,
                    height: rgb.height,
                },
            );
        }
        next = next + 1;
    }
    assert(issues@ =~= old(issues)@ + mask_issues(*source));
}

/// Masks that are found are without fault, except that the full-size one may not be
/// tiled.
pub proof fn law_found_masks_are_sound(source: SourceInfo)
    requires
        source.well_formed(),
        source.ifds@.len() <= usize::MAX,
    ensures
        dataset_masks(source) matches Some(masks) ==> mask_issues(source) == (
        if source.ifds@[masks.0 as int].tiled {
            Seq::<MaskIssue>::empty()
        } else {
            seq![MaskIssue::NotTiled]
        }),
{
    let count = source.ifds@.len() as int;
    let reduced = reduced_masks(source, count);
    lemma_reduced_masks(source, count);
    if let Some(masks) = dataset_masks(source) {
        if source.overviews@.len() > 0 {
            lemma_assigned_masks(reduced, source.overviews@);
            assert forall|k: int| 0 <= k < source.overviews@.len() implies mask_of_size(
                reduced,
                (#[trigger] source.overviews@[k]).width,
                source.overviews@[k].height,
                0,
            ) is Some by {
                let i = choose|i: int|
                    0 <= i < reduced.len() && (#[trigger] reduced[i]).0 == masks.1[k]
                        && reduced[i].1 == source.overviews@[k].width && reduced[i].2
                        == source.overviews@[k].height;
                assert(reduced[i].0 == masks.1[k]);
                lemma_mask_exists(
                    reduced,
                    source.overviews@[k].width,
                    source.overviews@[k].height,
                    0,
                    i,
                );
            }
        }
        lemma_all_matched(reduced, source.overviews@, source.overviews@.len() as int);
        assert(mask_issues(source) =~= (if source.ifds@[masks.0 as int].tiled {
            Seq::<MaskIssue>::empty()
        } else {
            seq![MaskIssue::NotTiled]
        }));
    }
}

proof fn lemma_mask_exists(masks: Seq<ReducedMask>, width: u32, height: u32, from: int, at: int)
    requires
        0 <= from <= at < masks.len(),
        masks[at].1 == width,
        masks[at].2 == height,
    ensures
        mask_of_size(masks, width, height, from) is Some,
    decreases at - from,
{
    if from < at {
        lemma_mask_exists(masks, width, height, from + 1, at);
    }
}

proof fn lemma_all_matched(masks: Seq<ReducedMask>, overviews: Seq<IfdInfo>, end: int)
    requires
        end <= overviews.len(),
        forall|k: int|
            0 <= k < overviews.len() ==> mask_of_size(
                masks,
                (#[trigger] overviews[k]).width,
                overviews[k].height,
                0,
            ) is Some,
    ensures
        unmatched_overviews(masks, overviews, end) == Seq::<MaskIssue>::empty(),
    decreases end,
{
    if end > 0 {
        lemma_all_matched(masks, overviews, end - 1);
        assert(mask_of_size(
            masks,
            overviews[end - 1].width,
            overviews[end - 1].height,
            0,
        ) is Some);
    }
}

/// What a directory holds: the third bit of its NewSubfileType marks a mask, the first one a
/// reduced image; the older SubfileType says four for a mask and two for a reduced image. A
/// single band that is interpreted as a mask is one as well.
pub proof fn law_flags_mark_masks(ifd: IfdInfo, bits: u64)
    requires
        ifd.new_subfile_type == Some(bits),
    ensures
        (bits / 4) % 2 == 1 ==> is_mask(ifd),
        (bits / 4) % 2 == 0 && ifd.subfile_type is None && ifd.photometric is None ==> !is_mask(
            ifd,
        ),
        ifd.subfile_type == Some(4u16) ==> is_mask(ifd),
        ifd.samples_per_pixel == 1 && ifd.photometric == Some(4u16) ==> is_mask(ifd),
        is_mask(ifd) ==> (bits / 4) % 2 == 1 || ifd.subfile_type == Some(4u16) || (
        ifd.samples_per_pixel == 1 && ifd.photometric == Some(4u16)),
        is_reduced(ifd) <==> bits % 2 == 1 || ifd.subfile_type == Some(2u16),
{
    assert((bits & 4 != 0) == ((bits / 4) % 2 == 1)) by (bit_vector);
    assert((bits & 1 != 0) == (bits % 2 == 1)) by (bit_vector);
}

proof fn lemma_full_masks(source: SourceInfo, end: int)
    requires
        0 <= end <= source.ifds@.len() <= usize::MAX,
    ensures
        forall|i: int|
            0 <= i < full_masks(source, end).len() ==> {
                let index = #[trigger] full_masks(source, end)[i];
                let ifd = source.ifds@[index as int];
                &&& index < end
                &&& index != source.base_ifd
                &&& is_mask(ifd)
                &&& !is_reduced(ifd)
                &&& ifd.width == source.base().width
                &&& ifd.height == source.base().height
            },
        forall|k: int|
            0 <= k < end && k != source.base_ifd && is_mask(#[trigger] source.ifds@[k])
                && !is_reduced(source.ifds@[k]) && source.ifds@[k].width == source.base().width
                && source.ifds@[k].height == source.base().height ==> full_masks(
                source,
                end,
            ).contains(k as usize),
    decreases end,
{
    if end > 0 {
        lemma_full_masks(source, end - 1);
        let front = full_masks(source, end - 1);
        let whole = full_masks(source, end);
        assert forall|k: int|
            0 <= k < end && k != source.base_ifd && is_mask(#[trigger] source.ifds@[k])
                && !is_reduced(source.ifds@[k]) && source.ifds@[k].width == source.base().width
                && source.ifds@[k].height == source.base().height implies whole.contains(
            k as usize,
        ) by {
            if k < end - 1 {
                assert(front.contains(k as usize));
                let i = choose|i: int| 0 <= i < front.len() && front[i] == k as usize;
                assert(whole[i] == k as usize);
            } else {
                assert(whole[front.len() as int] == k as usize);
            }
        }
    }
}

/// The mask of the full-size image is the one directory besides the image that holds a mask
/// of its size in full resolution. Where the source has such a mask and no overviews, it is
/// found.
pub proof fn law_full_mask_has_the_size_of_the_image(source: SourceInfo)
    requires
        source.well_formed(),
        source.ifds@.len() <= usize::MAX,
    ensures
        dataset_masks(source) matches Some(masks) ==> {
            let ifd = source.ifds@[masks.0 as int];
            &&& masks.0 < source.ifds@.len()
            &&& masks.0 != source.base_ifd
            &&& is_mask(ifd)
            &&& !is_reduced(ifd)
            &&& ifd.width == source.base().width
            &&& ifd.height == source.base().height
            &&& forall|k: int|
                0 <= k < source.ifds@.len() && k != source.base_ifd && is_mask(
                    #[trigger] source.ifds@[k],
                ) && !is_reduced(source.ifds@[k]) && source.ifds@[k].width == source.base().width
                    && source.ifds@[k].height == source.base().height ==> k == masks.0
        },
        source.overviews@.len() == 0 && dataset_masks(source) is None ==> forall|k: int|
            0 <= k < source.ifds@.len() && k != source.base_ifd && is_mask(
                #[trigger] source.ifds@[k],
            ) && !is_reduced(source.ifds@[k]) && source.ifds@[k].width == source.base().width
                && source.ifds@[k].height == source.base().height ==> full_masks(
                source,
                source.ifds@.len() as int,
            ).len() > 1,
{
    let count = source.ifds@.len() as int;
    lemma_full_masks(source, count);
    let full = full_masks(source, count);
    if let Some(masks) = dataset_masks(source) {
        assert(full[0] == masks.0);
        assert forall|k: int|
            0 <= k < source.ifds@.len() && k != source.base_ifd && is_mask(
                #[trigger] source.ifds@[k],
            ) && !is_reduced(source.ifds@[k]) && source.ifds@[k].width == source.base().width
                && source.ifds@[k].height == source.base().height implies k == masks.0 by {
            assert(full.contains(k as usize));
        }
    }
}

/// A fault of the masks is reported exactly where it is there: an overview without a mask of
/// its size, more than one full-size mask, and a full-size mask that is not tiled.
pub proof fn law_mask_faults_are_reported(source: SourceInfo, k: int)
    requires
        source.well_formed(),
        0 <= k < source.overviews@.len() <= usize::MAX,
        full_masks(source, source.ifds@.len() as int).len() > 0,
    ensures
        ({
            let reduced = reduced_masks(source, source.ifds@.len() as int);
            let overview = source.overviews@[k];
            let issue = MaskIssue::OverviewUnmatched {
                overview: k as usize,
                width: overview.width,
                height: overview.height,
            };
            (forall|i: int|
                0 <= i < reduced.len() ==> (#[trigger] reduced[i]).1 != overview.width
                    || reduced[i].2 != overview.height) ==> mask_issues(source).contains(issue)
        }),
        full_masks(source, source.ifds@.len() as int).len() > 1 ==> mask_issues(source).contains(
            MaskIssue::MultipleFullMasks,
        ),
        !source.ifds@[full_masks(source, source.ifds@.len() as int).last() as int].tiled
            ==> mask_issues(source).contains(MaskIssue::NotTiled),
{
    let count = source.ifds@.len() as int;
    let full = full_masks(source, count);
    let reduced = reduced_masks(source, count);
    let overview = source.overviews@[k];
    let issue = MaskIssue::OverviewUnmatched {
        overview: k as usize,
        width: overview.width,
        height: overview.height,
    };
    let multiple = Seq::new((full.len() - 1) as nat, |i: int| MaskIssue::MultipleFullMasks);
    let not_tiled = if source.ifds@[full.last() as int].tiled {
        Seq::empty()
    } else {
        seq![MaskIssue::NotTiled]
    };
    let unmatched = unmatched_overviews(
        reduced,
        source.overviews@,
        source.overviews@.len() as int,
    );
    let issues = mask_issues(source);
    if forall|i: int|
        0 <= i < reduced.len() ==> (#[trigger] reduced[i]).1 != overview.width || reduced[i].2
            != overview.height {
        lemma_no_mask(reduced, overview.width, overview.height, 0);
        lemma_unmatched_reported(reduced, source.overviews@, source.overviews@.len() as int, k);
        let i = choose|i: int| 0 <= i < unmatched.len() && unmatched[i] == issue;
        let shift = issues.len() - unmatched.len();
        assert(issues[shift + i] == unmatched[i]);
    }
    if full.len() > 1 {
        assert(issues[0] == multiple[0]);
    }
    if !source.ifds@[full.last() as int].tiled {
        assert(issues[multiple.len() as int] == not_tiled[0]);
    }
}

proof fn lemma_no_mask(masks: Seq<ReducedMask>, width: u32, height: u32, from: int)
    requires
        0 <= from,
        forall|i: int|
            0 <= i < masks.len() ==> (#[trigger] masks[i]).1 != width || masks[i].2 != height,
    ensures
        mask_of_size(masks, width, height, from) is None,
    decreases masks.len() - from,
{
    if from < masks.len() {
        lemma_no_mask(masks, width, height, from + 1);
    }
}

proof fn lemma_unmatched_reported(
    masks: Seq<ReducedMask>,
    overviews: Seq<IfdInfo>,
    end: int,
    k: int,
)
    requires
        0 <= k < end <= overviews.len() <= usize::MAX,
        mask_of_size(masks, overviews[k].width, overviews[k].height, 0) is None,
    ensures
        unmatched_overviews(masks, overviews, end).contains(
            MaskIssue::OverviewUnmatched {
                overview: k as usize,
                width: overviews[k].width,
                height: overviews[k].height,
            },
        ),
    decreases end,
{
    let whole = unmatched_overviews(masks, overviews, end);
    let front = unmatched_overviews(masks, overviews, end - 1);
    let issue = MaskIssue::OverviewUnmatched {
        overview: k as usize,
        width: overviews[k].width,
        height: overviews[k].height,
    };
    if k == end - 1 {
        assert(whole[front.len() as int] == issue);
    } else {
        lemma_unmatched_reported(masks, overviews, end - 1, k);
        let i = choose|i: int| 0 <= i < front.len() && front[i] == issue;
        assert(whole[i] == issue);
    }
}

/// A directory without flags has none set.
pub proof fn law_missing_flags_are_not_set(ifd: IfdInfo)
    ensures
        ifd.new_subfile_type is None ==> subfile_bits(ifd) == 0,
        ifd.new_subfile_type matches Some(flags) ==> subfile_bits(ifd) == flags,
{
}

} // verus!
