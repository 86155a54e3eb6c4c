//! Cutting a window out of a tiled file: tiles that lie wholly within the window are
//! copied, the others are decoded and compressed anew. Overviews come from those of the
//! source, never from its full-size image; a crop without them is refused.
use crate::arith::{
    ceil_div, div_ceil, lemma_ceil_div, lemma_grid_index, lemma_mul_bound, max_of,
};
use crate::cog::builder::{tile_encoding, tile_encoding_from_opts, TileEncoding};
use crate::cog::grid::{
    law_tiles_partition_raster, tile_count, tile_grid, tile_job_at, TileJob,
};
use crate::cog::options::{CogOutputOptions, ResamplingChoice};
use crate::crop::WriteWindow;
use crate::encode::regions::{
    is_block_mean, lemma_average_is_block_mean, lemma_block_means_move,
};
use crate::encode::tiles::{pad_tile_2d, pad_tile_chunky};
use crate::input::profile::{
    ifd_planar, ifd_predictor, planar_in, predictor_in, IfdInfo, RasterProfile, SourceInfo,
};
use crate::raster::{sample2, sample3, Grid2, Grid3};
use crate::remux::{
    divides, factor_position, find_divisor, find_factor, input_overview_levels, is_divisor,
    lemma_factor_position, none_divides, overview_factors,
};
use crate::resample::{
    band_reduced, downsample_2d, downsample_3d, integral_method, is_band,
    law_nearest_is_first_of_block, reduced_sample, MeanSample,
};
use crate::tiff::{PlanarConfiguration, SampleFormat};
use vstd::arithmetic::div_mod::lemma_fundamental_div_mod;
use vstd::prelude::*;

verus! {

/// The window in pixels of an overview that is `scale` times smaller.
pub open spec fn window_at(window: WriteWindow, scale: nat) -> WriteWindow {
    WriteWindow {
        col_off: (window.col_off as int / scale as int) as usize,
        row_off: (window.row_off as int / scale as int) as usize,
        width: (window.width as int / scale as int) as usize,
        height: (window.height as int / scale as int) as usize,
    }
}

/// Scales a window down for reads of an overview.
pub fn scale_window(window: &WriteWindow, scale: u32) -> (scaled: WriteWindow)
    requires
        scale > 0,
    ensures
        scaled == window_at(*window, scale as nat),
{
    let factor: usize = scale as usize;
    WriteWindow {
        col_off: window.col_off / factor,
        row_off: window.row_off / factor,
        width: window.width / factor,
        height: window.height / factor,
    }
}

/// Whether the scaled window starts within a layer of the source and ends within it.
pub open spec fn level_fits(ifd: IfdInfo, window: WriteWindow, level: nat) -> bool {
    let scaled = window_at(window, level);
    &&& scaled.col_off < ifd.width
    &&& scaled.row_off < ifd.height
    &&& scaled.col_off + scaled.width <= ifd.width
    &&& scaled.row_off + scaled.height <= ifd.height
}

/// Whether the scaled window starts within a layer of the source and ends within it.
pub fn crop_level_fits(ifd: &IfdInfo, window: &WriteWindow, level: u32) -> (fits: bool)
    requires
        level > 0,
    ensures
        fits == level_fits(*ifd, *window, level as nat),
{
    let scaled: WriteWindow = scale_window(window, level);
    let ifd_w: usize = ifd.width as usize;
    let ifd_h: usize = ifd.height as usize;
    scaled.col_off < ifd_w && scaled.row_off < ifd_h && scaled.width <= ifd_w - scaled.col_off
        && scaled.height <= ifd_h - scaled.row_off
}

/// Where an overview of a cropped output comes from.
#[derive(Debug, Clone, Copy, PartialEq, Eq, Structural)]
pub enum CropSource {
    /// A window of a layer of the source with the same resolution.
    Cut { layer: usize, window: WriteWindow },
    /// A window of a finer layer of the source, which is reduced.
    Generated { layer: usize, window: WriteWindow, factor: u32 },
}

/// The layer that an overview is made from where the window fits no overview of the source:
/// that of the overview before it in the output; none where the source does not have it, or
/// where it cannot be reduced to this one.
pub open spec fn parent_source(
    source: SourceInfo,
    window: WriteWindow,
    levels: Seq<u32>,
    overview: int,
) -> Option<CropSource> {
    if overview > 0 && divides(levels[overview - 1], levels[overview]) && factor_position(
        overview_factors(source),
        levels[overview - 1],
        0,
    ) is Some {
        Some(
            CropSource::Generated {
                layer: (factor_position(overview_factors(source), levels[overview - 1], 0)->0
                    + 1) as usize,
                window: window_at(window, levels[overview - 1] as nat),
                factor: levels[overview - 1],
            },
        )
    } else {
        None
    }
}

/// Whether an overview of a cropped output comes from `origin`: cut out of the overview
/// of the source with the same factor where the window fits there, else reduced from the
/// coarsest one whose factor divides that of the overview where the window fits there, else
/// from the parent. None where no overview of the source serves.
pub open spec fn is_crop_source(
    source: SourceInfo,
    window: WriteWindow,
    levels: Seq<u32>,
    overview: int,
    origin: Option<CropSource>,
) -> bool {
    let factors = overview_factors(source);
    let level = levels[overview];
    let same = factor_position(factors, level, 0);
    if same is Some && level_fits(source.overviews@[same->0], window, level as nat) {
        origin == Some(
            CropSource::Cut {
                layer: (same->0 + 1) as usize,
                window: window_at(window, level as nat),
            },
        )
    } else if none_divides(factors, level, factors.len() as int) {
        origin == parent_source(source, window, levels, overview)
    } else {
        exists|best: int| #[trigger]
            is_divisor(factors, level, factors.len() as int, best) && origin == (if level_fits(
                source.overviews@[best],
                window,
                factors[best] as nat,
            ) {
                Some(
                    CropSource::Generated {
                        layer: (best + 1) as usize,
                        window: window_at(window, factors[best] as nat),
                        factor: factors[best],
                    },
                )
            } else {
                parent_source(source, window, levels, overview)
            })
    }
}

/// Whether every overview of a cropped output comes from an overview of the source.
pub open spec fn cropped_from_overviews(
    source: SourceInfo,
    window: WriteWindow,
    levels: Seq<u32>,
) -> bool {
    forall|i: int|
        0 <= i < levels.len() ==> !#[trigger] is_crop_source(source, window, levels, i, None)
}

/// There is one answer to where an overview comes from.
pub proof fn lemma_one_crop_source(
    source: SourceInfo,
    window: WriteWindow,
    levels: Seq<u32>,
    overview: int,
    a: Option<CropSource>,
    b: Option<CropSource>,
)
    requires
        is_crop_source(source, window, levels, overview, a),
        is_crop_source(source, window, levels, overview, b),
    ensures
        a == b,
{
}

/// The layer that an overview of a cropped output is read from.
pub open spec fn origin_layer(origin: CropSource) -> usize {
    match origin {
        CropSource::Cut { layer, .. } => layer,
        CropSource::Generated { layer, .. } => layer,
    }
}

/// The overviews of a cropped output are read from overviews of the source, and not from
/// its full-size image, which is layer zero.
pub proof fn law_crops_read_source_overviews(
    source: SourceInfo,
    window: WriteWindow,
    levels: Seq<u32>,
    overview: int,
    origin: CropSource,
)
    requires
        source.overviews@.len() <= usize::MAX,
        is_crop_source(source, window, levels, overview, Some(origin)),
    ensures
        1 <= origin_layer(origin) <= source.overviews@.len(),
{
    let factors = overview_factors(source);
    lemma_factor_position(factors, levels[overview], 0);
    lemma_factor_position(factors, levels[overview - 1], 0);
}

/// What an overview of a cropped output is made from is no coarser than the overview: its
/// factor divides that of the overview.
pub proof fn law_crops_read_finer_overviews(
    source: SourceInfo,
    window: WriteWindow,
    levels: Seq<u32>,
    overview: int,
    layer: usize,
    scaled: WriteWindow,
    factor: u32,
)
    requires
        source.overviews@.len() <= usize::MAX,
        is_crop_source(
            source,
            window,
            levels,
            overview,
            Some(CropSource::Generated { layer, window: scaled, factor }),
        ),
    ensures
        divides(factor, levels[overview]),
        overview_factors(source)[layer - 1] == factor,
        scaled == window_at(window, factor as nat),
{
    let factors = overview_factors(source);
    lemma_factor_position(factors, levels[overview], 0);
    lemma_factor_position(factors, levels[overview - 1], 0);
}

/// Where an overview of a cropped output comes from; none where no overview of the source
/// serves.
pub fn build_crop_overview_layer(
    source: &SourceInfo,
    window: &WriteWindow,
    source_factors: &[u32],
    output_levels: &[u32],
    out_idx: usize,
) -> (origin: Option<CropSource>)
    requires
        source.well_formed(),
        source_factors@ == overview_factors(*source),
        out_idx < output_levels@.len(),
        forall|i: int| 0 <= i < output_levels@.len() ==> #[trigger] output_levels@[i] > 0,
    ensures
        is_crop_source(*source, *window, output_levels@, out_idx as int, origin),
        origin matches Some(found) ==> 1 <= origin_layer(found) <= source.overviews@.len(),
{
    let level: u32 = output_levels[out_idx];
    let count: usize = source_factors.len();
    if let Some(src_ov) = find_factor(source_factors, level) {
        if crop_level_fits(&source.overviews[src_ov], window, level) {
            return Some(
                CropSource::Cut { layer: src_ov + 1, window: scale_window(window, level) },
            );
        }
    }
    if let Some(src_ov) = find_divisor(source_factors, level) {
        let src_factor: u32 = source_factors[src_ov];
        assert(divides(source_factors@[src_ov as int], level));
        assert(is_divisor(
            overview_factors(*source),
            level,
            overview_factors(*source).len() as int,
            src_ov as int,
        ));
        if crop_level_fits(&source.overviews[src_ov], window, src_factor) {
            return Some(
                CropSource::Generated {
                    layer: src_ov + 1,
                    window: scale_window(window, src_factor),
                    factor: src_factor,
                },
            );
        }
    }
    if out_idx > 0 {
        let parent_level: u32 = output_levels[out_idx - 1];
        if parent_level > 1 && level % parent_level == 0 {
            if let Some(src_ov) = find_factor(source_factors, parent_level) {
                return Some(
                    CropSource::Generated {
                        layer: src_ov + 1,
                        window: scale_window(window, parent_level),
                        factor: parent_level,
                    },
                );
            }
        }
    }
    None
}

/// Whether every overview of a cropped output comes from an overview of the source.
pub fn can_crop_overviews(
    source: &SourceInfo,
    window: &WriteWindow,
    output_levels: &[u32],
) -> (croppable: bool)
    requires
        source.well_formed(),
        forall|i: int| 0 <= i < output_levels@.len() ==> #[trigger] output_levels@[i] > 0,
    ensures
        croppable == cropped_from_overviews(*source, *window, output_levels@),
{
    let factors: Vec<u32> = input_overview_levels(source);
    let mut out_idx: usize = 0;
    while out_idx < output_levels.len()
        invariant
            out_idx <= output_levels@.len(),
            source.well_formed(),
            factors@ == overview_factors(*source),
            forall|i: int| 0 <= i < output_levels@.len() ==> #[trigger] output_levels@[i] > 0,
            forall|i: int|
                0 <= i < out_idx ==> !#[trigger] is_crop_source(
                    *source,
                    *window,
                    output_levels@,
                    i,
                    None,
                ),
        decreases output_levels@.len() - out_idx,
    {
        match build_crop_overview_layer(source, window, &factors, output_levels, out_idx) {
            None => {
                return false;
            },
            Some(origin) => {
                proof {
                    if is_crop_source(*source, *window, output_levels@, out_idx as int, None) {
                        lemma_one_crop_source(
                            *source,
                            *window,
                            output_levels@,
                            out_idx as int,
                            None,
                            Some(origin),
                        );
                    }
                }
            },
        }
        out_idx = out_idx + 1;
    }
    true
}

/// The pixels that a tile of an overview is made from: rows and columns of the source,
/// and how much they are reduced.
#[derive(Debug, Clone, Copy, PartialEq, Eq, Structural)]
pub struct GeneratedRead {
    pub col: usize,
    pub row: usize,
    pub cols: usize,
    pub rows: usize,
    pub downsample: usize,
}

/// A length of an overview with factor `target` in pixels of a layer with factor
/// `source`.
pub open spec fn in_source(length: int, target: int, source: int) -> int {
    length * target / max_of(source, 1)
}

/// Where a tile of an overview is read in a finer layer, and how much it is reduced.
pub open spec fn generated_region(
    window: WriteWindow,
    job: TileJob,
    target: int,
    source: int,
) -> (int, int, int, int, int) {
    (
        window.col_off + in_source(job.col_off as int, target, source),
        window.row_off + in_source(job.row_off as int, target, source),
        in_source(job.cols as int, target, source),
        in_source(job.rows as int, target, source),
        max_of(target / max_of(source, 1), 1),
    )
}

/// The products that locate a tile of an overview fit the machine.
pub open spec fn generated_region_fits(
    window: WriteWindow,
    job: TileJob,
    target: int,
    source: int,
) -> bool {
    let region = generated_region(window, job, target, source);
    &&& job.col_off * target <= usize::MAX
    &&& job.row_off * target <= usize::MAX
    &&& job.cols * target <= usize::MAX
    &&& job.rows * target <= usize::MAX
    &&& region.0 <= usize::MAX
    &&& region.1 <= usize::MAX
}

/// Where a tile of an overview is read.
pub fn generated_read_region(
    src_win: &WriteWindow,
    job: &TileJob,
    target_level: u32,
    source_factor: u32,
) -> (read: GeneratedRead)
    requires
        target_level > 0,
        generated_region_fits(*src_win, *job, target_level as int, source_factor as int),
    ensures
        ({
            let region = generated_region(*src_win, *job, target_level as int, source_factor as int);
            &&& read.col == region.0
            &&& read.row == region.1
            &&& read.cols == region.2
            &&& read.rows == region.3
            &&& read.downsample == region.4
        }),
{
    let target: usize = target_level as usize;
    let source: usize = if source_factor < 1 {
        1
    } else {
        source_factor as usize
    };
    let ratio: usize = target / source;
    GeneratedRead {
        col: src_win.col_off + job.col_off * target / source,
        row: src_win.row_off + job.row_off * target / source,
        cols: job.cols * target / source,
        rows: job.rows * target / source,
        downsample: if ratio < 1 {
            1
        } else {
            ratio
        },
    }
}

/// What is read for a tile of an overview is the tile's own area in the finer layer: each of
/// its pixels is reduced from as many rows and columns as the reduction says.
pub proof fn law_generated_read_covers_tile(
    window: WriteWindow,
    job: TileJob,
    target: int,
    source: int,
)
    requires
        0 < source <= target,
        target % source == 0,
    ensures
        ({
            let region = generated_region(window, job, target, source);
            &&& region.4 * source == target
            &&& region.0 == window.col_off + job.col_off * region.4
            &&& region.1 == window.row_off + job.row_off * region.4
            &&& region.2 == job.cols * region.4
            &&& region.3 == job.rows * region.4
        }),
{
    let ratio = target / source;
    lemma_fundamental_div_mod(target, source);
    assert(ratio >= 1) by (nonlinear_arith)
        requires
            target == source * ratio,
            0 < source <= target,
    ;
    assert(ratio * source == source * ratio) by (nonlinear_arith);
    lemma_in_source(job.col_off as int, target, source);
    lemma_in_source(job.row_off as int, target, source);
    lemma_in_source(job.cols as int, target, source);
    lemma_in_source(job.rows as int, target, source);
}

proof fn lemma_in_source(length: int, target: int, source: int)
    requires
        0 <= length,
        0 < source <= target,
        target % source == 0,
    ensures
        in_source(length, target, source) == length * (target / source),
{
    let ratio = target / source;
    lemma_fundamental_div_mod(target, source);
    assert(length * target == (length * ratio) * source) by (nonlinear_arith)
        requires
            target == source * ratio,
    ;
    vstd::arithmetic::div_mod::lemma_div_by_multiple(length * ratio, source);
}

/// Whether an output tile is a whole tile of the source.
pub open spec fn is_whole_tile(
    col: int,
    row: int,
    cols: int,
    rows: int,
    tile_size: int,
    ifd: IfdInfo,
) -> bool {
    &&& cols == tile_size
    &&& rows == tile_size
    &&& col % tile_size == 0
    &&& row % tile_size == 0
    &&& col + tile_size <= ifd.width
    &&& row + tile_size <= ifd.height
}

/// Whether an output tile is a whole tile of the source.
pub fn can_copy_whole_tile(
    src_col: usize,
    src_row: usize,
    cols: usize,
    rows: usize,
    tile_size: usize,
    ifd: &IfdInfo,
) -> (whole: bool)
    requires
        tile_size > 0,
        src_col + tile_size <= usize::MAX,
        src_row + tile_size <= usize::MAX,
    ensures
        whole == is_whole_tile(
            src_col as int,
            src_row as int,
            cols as int,
            rows as int,
            tile_size as int,
            *ifd,
        ),
{
    cols == tile_size && rows == tile_size && src_col % tile_size == 0 && src_row % tile_size == 0
        && src_col + tile_size <= ifd.width as usize && src_row + tile_size <= ifd.height as usize
}

/// The block of the source that holds a pixel, all bands in one block.
pub open spec fn chunky_block(ifd: IfdInfo, col: int, row: int, tile_size: int) -> int {
    row / tile_size * ceil_div(ifd.width as nat, tile_size as nat) as int + col / tile_size
}

/// The block of the source that holds a pixel of a band, each band in blocks of its own.
pub open spec fn planar_block(ifd: IfdInfo, col: int, row: int, band: int, tile_size: int) -> int {
    band * tile_count(ifd.width as nat, ifd.height as nat, tile_size as nat) + chunky_block(
        ifd,
        col,
        row,
        tile_size,
    )
}

proof fn lemma_chunky_block(ifd: IfdInfo, col: int, row: int, tile_size: int)
    requires
        tile_size > 0,
        0 <= col < ifd.width,
        0 <= row < ifd.height,
    ensures
        0 <= row / tile_size < ceil_div(ifd.height as nat, tile_size as nat),
        0 <= col / tile_size < ceil_div(ifd.width as nat, tile_size as nat),
        0 <= chunky_block(ifd, col, row, tile_size) < tile_count(
            ifd.width as nat,
            ifd.height as nat,
            tile_size as nat,
        ),
{
    lemma_tile_of(col, ifd.width as nat, tile_size);
    lemma_tile_of(row, ifd.height as nat, tile_size);
    let across = ceil_div(ifd.width as nat, tile_size as nat);
    let down = ceil_div(ifd.height as nat, tile_size as nat);
    lemma_grid_index(row / tile_size, col / tile_size, across as int, down as int);
    assert(down * across == across * down) by (nonlinear_arith);
}

proof fn lemma_tile_of(at: int, total: nat, tile_size: int)
    requires
        tile_size > 0,
        0 <= at < total,
    ensures
        0 <= at / tile_size < ceil_div(total, tile_size as nat),
{
    lemma_ceil_div(total, tile_size as nat);
    vstd::arithmetic::div_mod::lemma_fundamental_div_mod(at, tile_size);
    let q = at / tile_size;
    let n = ceil_div(total, tile_size as nat) as int;
    assert(0 <= q < n) by (nonlinear_arith)
        requires
            tile_size > 0,
            0 <= at < total,
            tile_size * q <= at,
            at < tile_size * q + tile_size,
            total <= n * tile_size,
    ;
}

/// The block of the source that holds a pixel of a band.
pub fn source_planar_block_index(
    ifd: &IfdInfo,
    src_col: usize,
    src_row: usize,
    band: usize,
    tile_size: usize,
) -> (index: usize)
    requires
        tile_size > 0,
        src_col < ifd.width,
        src_row < ifd.height,
        (band + 1) * tile_count(ifd.width as nat, ifd.height as nat, tile_size as nat)
            <= usize::MAX,
    ensures
        index == planar_block(*ifd, src_col as int, src_row as int, band as int, tile_size as int),
{
    let tiles_across: usize = div_ceil(ifd.width as usize, tile_size);
    let tiles_down: usize = div_ceil(ifd.height as usize, tile_size);
    let tile_col: usize = src_col / tile_size;
    let tile_row: usize = src_row / tile_size;
    proof {
        lemma_chunky_block(*ifd, src_col as int, src_row as int, tile_size as int);
        let plane = tiles_across * tiles_down;
        assert(plane == tiles_down * tiles_across) by (nonlinear_arith)
            requires
                plane == tiles_across * tiles_down,
        ;
        assert(plane == tile_count(ifd.width as nat, ifd.height as nat, tile_size as nat));
        assert(plane <= (band + 1) * plane) by (nonlinear_arith)
            requires
                band >= 0,
                plane == tiles_across * tiles_down,
        ;
        assert((band + 1) * plane == band * plane + plane) by (nonlinear_arith);
        assert(band * plane >= 0) by (nonlinear_arith)
            requires
                band >= 0,
                plane == tiles_across * tiles_down,
        ;
        assert(0 <= tile_row * tiles_across) by (nonlinear_arith);
    }
    let tiles_per_plane: usize = tiles_across * tiles_down;
    band * tiles_per_plane + tile_row * tiles_across + tile_col
}

/// The block of the source that holds a pixel.
pub fn source_chunky_block_index(
    ifd: &IfdInfo,
    src_col: usize,
    src_row: usize,
    tile_size: usize,
) -> (index: usize)
    requires
        tile_size > 0,
        src_col < ifd.width,
        src_row < ifd.height,
        tile_count(ifd.width as nat, ifd.height as nat, tile_size as nat) <= usize::MAX,
    ensures
        index == chunky_block(*ifd, src_col as int, src_row as int, tile_size as int),
{
    let tiles_across: usize = div_ceil(ifd.width as usize, tile_size);
    let tile_col: usize = src_col / tile_size;
    let tile_row: usize = src_row / tile_size;
    proof {
        lemma_chunky_block(*ifd, src_col as int, src_row as int, tile_size as int);
        assert(0 <= tile_row * tiles_across) by (nonlinear_arith);
    }
    tile_row * tiles_across + tile_col
}

/// A tile that is copied is the tile of the source's grid that starts at the same pixel,
/// with its full size.
pub proof fn law_copied_tile_is_source_tile(
    ifd: IfdInfo,
    col: int,
    row: int,
    cols: int,
    rows: int,
    tile_size: int,
)
    requires
        tile_size > 0,
        0 <= col,
        0 <= row,
        col + tile_size <= usize::MAX,
        row + tile_size <= usize::MAX,
        is_whole_tile(col, row, cols, rows, tile_size, ifd),
    ensures
        ({
            let index = chunky_block(ifd, col, row, tile_size);
            let tile = tile_job_at(ifd.width as nat, ifd.height as nat, tile_size as nat, index);
            &&& 0 <= index < tile_count(ifd.width as nat, ifd.height as nat, tile_size as nat)
            &&& tile.col_off == col
            &&& tile.row_off == row
            &&& tile.cols == cols
            &&& tile.rows == rows
        }),
{
    lemma_chunky_block(ifd, col, row, tile_size);
    let across = ceil_div(ifd.width as nat, tile_size as nat) as int;
    let down = ceil_div(ifd.height as nat, tile_size as nat) as int;
    lemma_grid_index(row / tile_size, col / tile_size, across, down);
    vstd::arithmetic::div_mod::lemma_fundamental_div_mod(col, tile_size);
    vstd::arithmetic::div_mod::lemma_fundamental_div_mod(row, tile_size);
    assert(tile_size * (col / tile_size) == col / tile_size * tile_size) by (nonlinear_arith);
    assert(tile_size * (row / tile_size) == row / tile_size * tile_size) by (nonlinear_arith);
}

/// What becomes of one tile of a layer that is cut out of the source.
#[derive(Debug, Clone, Copy, PartialEq, Eq, Structural)]
pub enum TileAction {
    /// A block of the source is copied.
    Copy { block: usize },
    /// The pixels from this row and column on are decoded and compressed anew.
    Encode { row: usize, col: usize },
}

/// What becomes of one tile of a layer that is cut out of the source: a whole tile of
/// the source is copied. `band` is none where all bands stand in one block.
pub open spec fn is_tile_action(
    ifd: IfdInfo,
    window: WriteWindow,
    job: TileJob,
    band: Option<int>,
    tile_size: int,
    action: TileAction,
) -> bool {
    let col = window.col_off + job.col_off;
    let row = window.row_off + job.row_off;
    if is_whole_tile(col, row, job.cols as int, job.rows as int, tile_size, ifd) {
        action matches TileAction::Copy { block } && block == (match band {
            Some(plane) => planar_block(ifd, col, row, plane, tile_size),
            None => chunky_block(ifd, col, row, tile_size),
        })
    } else {
        action matches TileAction::Encode { row: r, col: c } && r == row && c == col
    }
}

/// The pixels of a tile can be addressed in the source.
pub open spec fn tile_addressable(
    ifd: IfdInfo,
    window: WriteWindow,
    job: TileJob,
    tile_size: int,
) -> bool {
    &&& window.col_off + job.col_off + tile_size <= usize::MAX
    &&& window.row_off + job.row_off + tile_size <= usize::MAX
}

/// What becomes of one tile of one band, where each band stands in blocks of its own.
pub fn encode_planar_tile(
    ifd: &IfdInfo,
    src_win: &WriteWindow,
    band: usize,
    job: &TileJob,
    tile_size: usize,
) -> (action: TileAction)
    requires
        tile_size > 0,
        tile_addressable(*ifd, *src_win, *job, tile_size as int),
        (band + 1) * tile_count(ifd.width as nat, ifd.height as nat, tile_size as nat)
            <= usize::MAX,
    ensures
        is_tile_action(*ifd, *src_win, *job, Some(band as int), tile_size as int, action),
{
    let src_col: usize = src_win.col_off + job.col_off;
    let src_row: usize = src_win.row_off + job.row_off;
    if can_copy_whole_tile(src_col, src_row, job.cols, job.rows, tile_size, ifd) {
        let block: usize = source_planar_block_index(ifd, src_col, src_row, band, tile_size);
        return TileAction::Copy { block };
    }
    TileAction::Encode { row: src_row, col: src_col }
}

/// What becomes of one tile, where all bands stand in one block.
pub fn encode_chunky_tile(
    ifd: &IfdInfo,
    src_win: &WriteWindow,
    job: &TileJob,
    tile_size: usize,
) -> (action: TileAction)
    requires
        tile_size > 0,
        tile_addressable(*ifd, *src_win, *job, tile_size as int),
        tile_count(ifd.width as nat, ifd.height as nat, tile_size as nat) <= usize::MAX,
    ensures
        is_tile_action(*ifd, *src_win, *job, None, tile_size as int, action),
{
    let src_col: usize = src_win.col_off + job.col_off;
    let src_row: usize = src_win.row_off + job.row_off;
    if can_copy_whole_tile(src_col, src_row, job.cols, job.rows, tile_size, ifd) {
        let block: usize = source_chunky_block_index(ifd, src_col, src_row, tile_size);
        return TileAction::Copy { block };
    }
    TileAction::Encode { row: src_row, col: src_col }
}

/// A crop shows the window: whether a tile is copied or encoded, the pixel in column `x` of
/// row `y` of the crop is the pixel of the source that lies as far from the corner of the
/// window. A tile that is copied has the size of its block and covers the same pixels.
pub proof fn law_crop_tile_shows_window(
    ifd: IfdInfo,
    window: WriteWindow,
    job: TileJob,
    band: Option<int>,
    tile_size: int,
    action: TileAction,
    x: int,
    y: int,
)
    requires
        tile_size > 0,
        tile_addressable(ifd, window, job, tile_size),
        is_tile_action(ifd, window, job, band, tile_size, action),
        job.col_off <= x < job.col_off + job.cols,
        job.row_off <= y < job.row_off + job.rows,
    ensures
        match action {
            TileAction::Encode { row, col } => {
                &&& row + (y - job.row_off) == window.row_off + y
                &&& col + (x - job.col_off) == window.col_off + x
            },
            TileAction::Copy { block } => {
                let width = ifd.width as nat;
                let height = ifd.height as nat;
                let plane = match band {
                    Some(index) => index,
                    None => 0,
                };
                let place = block - plane * tile_count(width, height, tile_size as nat);
                let tile = tile_job_at(width, height, tile_size as nat, place);
                &&& 0 <= place < tile_count(width, height, tile_size as nat)
                &&& tile.row_off + (y - job.row_off) == window.row_off + y
                &&& tile.col_off + (x - job.col_off) == window.col_off + x
                &&& tile.cols == job.cols == tile_size
                &&& tile.rows == job.rows == tile_size
            },
        },
{
    let col = window.col_off + job.col_off;
    let row = window.row_off + job.row_off;
    let count = tile_count(ifd.width as nat, ifd.height as nat, tile_size as nat) as int;
    assert(0 * count == 0);
    if is_whole_tile(col, row, job.cols as int, job.rows as int, tile_size, ifd) {
        law_copied_tile_is_source_tile(
            ifd,
            col,
            row,
            job.cols as int,
            job.rows as int,
            tile_size,
        );
    }
}

/// Over all of its tiles, a crop is the window of the source: each pixel of the crop lies in
/// one tile of its grid, and what becomes of that tile shows the pixel of the source that
/// lies as far from the corner of the window.
pub proof fn law_crop_is_window_of_source(
    ifd: IfdInfo,
    window: WriteWindow,
    width: nat,
    height: nat,
    tile_size: nat,
    actions: Seq<TileAction>,
    x: int,
    y: int,
)
    requires
        0 < tile_size <= u32::MAX,
        width <= u32::MAX,
        height <= u32::MAX,
        window.col_off + width + tile_size <= usize::MAX,
        window.row_off + height + tile_size <= usize::MAX,
        actions.len() == tile_count(width, height, tile_size),
        forall|i: int|
            0 <= i < actions.len() ==> is_tile_action(
                ifd,
                window,
                tile_job_at(width, height, tile_size, i),
                None,
                tile_size as int,
                #[trigger] actions[i],
            ),
        0 <= x < width,
        0 <= y < height,
    ensures
        exists|i: int|
            {
                &&& 0 <= i < actions.len()
                &&& i % ceil_div(width, tile_size) as int == x / tile_size as int
                &&& i / ceil_div(width, tile_size) as int == y / tile_size as int
                &&& match #[trigger] actions[i] {
                    TileAction::Encode { row, col } => {
                        &&& row + y % tile_size as int == window.row_off + y
                        &&& col + x % tile_size as int == window.col_off + x
                    },
                    TileAction::Copy { block } => {
                        let tile = tile_job_at(
                            ifd.width as nat,
                            ifd.height as nat,
                            tile_size,
                            block as int,
                        );
                        &&& tile.row_off + y % tile_size as int == window.row_off + y
                        &&& tile.col_off + x % tile_size as int == window.col_off + x
                    },
                }
            },
{
    let t = tile_size as int;
    let across = ceil_div(width, tile_size) as int;
    let down = ceil_div(height, tile_size) as int;
    law_tiles_partition_raster(width, height, tile_size, x, y);
    lemma_tile_of(x, width, t);
    lemma_tile_of(y, height, t);
    let i = y / t * across + x / t;
    lemma_grid_index(y / t, x / t, across, down);
    let job = tile_job_at(width, height, tile_size, i);
    assert(tile_grid(width, height, tile_size)[i].covers(x, y));
    crate::encode::decode::lemma_job_row(width, height, tile_size, i);
    lemma_fundamental_div_mod(x, t);
    lemma_fundamental_div_mod(y, t);
    assert(t * (x / t) == x / t * t) by (nonlinear_arith);
    assert(t * (y / t) == y / t * t) by (nonlinear_arith);
    assert(is_tile_action(ifd, window, job, None, t, actions[i]));
    law_crop_tile_shows_window(ifd, window, job, None, t, actions[i], x, y);
}

/// A tile of a crop is copied exactly where a whole tile of the source covers the same
/// pixels.
pub proof fn law_whole_tiles_are_copied(
    ifd: IfdInfo,
    window: WriteWindow,
    job: TileJob,
    band: Option<int>,
    tile_size: int,
    action: TileAction,
)
    requires
        tile_size > 0,
        tile_addressable(ifd, window, job, tile_size),
        is_tile_action(ifd, window, job, band, tile_size, action),
    ensures
        action is Copy <==> exists|i: int, j: int|
            {
                &&& 0 <= i
                &&& 0 <= j
                &&& window.col_off + job.col_off == #[trigger] (i * tile_size)
                &&& window.row_off + job.row_off == #[trigger] (j * tile_size)
                &&& (i + 1) * tile_size <= ifd.width
                &&& (j + 1) * tile_size <= ifd.height
                &&& job.cols == tile_size
                &&& job.rows == tile_size
            },
{
    let col = window.col_off + job.col_off;
    let row = window.row_off + job.row_off;
    lemma_fundamental_div_mod(col, tile_size);
    lemma_fundamental_div_mod(row, tile_size);
    let i = col / tile_size;
    let j = row / tile_size;
    assert(tile_size * i == i * tile_size) by (nonlinear_arith);
    assert(tile_size * j == j * tile_size) by (nonlinear_arith);
    assert((i + 1) * tile_size == i * tile_size + tile_size) by (nonlinear_arith);
    assert((j + 1) * tile_size == j * tile_size + tile_size) by (nonlinear_arith);
    assert(i >= 0 && j >= 0) by {
        vstd::arithmetic::div_mod::lemma_div_pos_is_pos(col, tile_size);
        vstd::arithmetic::div_mod::lemma_div_pos_is_pos(row, tile_size);
    }
    if exists|i: int, j: int|
        {
            &&& 0 <= i
            &&& 0 <= j
            &&& window.col_off + job.col_off == #[trigger] (i * tile_size)
            &&& window.row_off + job.row_off == #[trigger] (j * tile_size)
            &&& (i + 1) * tile_size <= ifd.width
            &&& (j + 1) * tile_size <= ifd.height
            &&& job.cols == tile_size
            &&& job.rows == tile_size
        } {
        let (a, b) = choose|i: int, j: int|
            {
                &&& 0 <= i
                &&& 0 <= j
                &&& window.col_off + job.col_off == #[trigger] (i * tile_size)
                &&& window.row_off + job.row_off == #[trigger] (j * tile_size)
                &&& (i + 1) * tile_size <= ifd.width
                &&& (j + 1) * tile_size <= ifd.height
                &&& job.cols == tile_size
                &&& job.rows == tile_size
            };
        assert((a + 1) * tile_size == a * tile_size + tile_size) by (nonlinear_arith);
        assert((b + 1) * tile_size == b * tile_size + tile_size) by (nonlinear_arith);
        vstd::arithmetic::div_mod::lemma_mod_multiples_basic(a, tile_size);
        vstd::arithmetic::div_mod::lemma_mod_multiples_basic(b, tile_size);
    }
}

/// One block of an output with each band in blocks of its own.
#[derive(Debug, Clone, Copy, PartialEq, Eq, Structural)]
pub struct PlanarBlock {
    pub band: usize,
    pub job: TileJob,
}

/// The blocks of all bands: all tiles of the first band, then all of the second, and so
/// on.
pub open spec fn planar_blocks(jobs: Seq<TileJob>, bands: nat) -> Seq<PlanarBlock> {
    Seq::new(
        bands * jobs.len(),
        |i: int|
            PlanarBlock {
                band: (i / jobs.len() as int) as usize,
                job: jobs[i % jobs.len() as int],
            },
    )
}

/// The blocks of all bands, in the order of the output.
pub fn planar_work(jobs: &[TileJob], bands: usize) -> (work: Vec<PlanarBlock>)
    ensures
        work@ == planar_blocks(jobs@, bands as nat),
{
    let mut work: Vec<PlanarBlock> = Vec::new();
    let mut band: usize = 0;
    assert(0 * jobs@.len() == 0) by (nonlinear_arith);
    while band < bands
        invariant
            band <= bands,
            work@.len() == band * jobs@.len(),
            forall|i: int|
                0 <= i < work@.len() ==> #[trigger] work@[i] == (PlanarBlock {
                    band: (i / jobs@.len() as int) as usize,
                    job: jobs@[i % jobs@.len() as int],
                }),
        decreases bands - band,
    {
        let mut tile: usize = 0;
        while tile < jobs.len()
            invariant
                band < bands,
                tile <= jobs@.len(),
                work@.len() == band * jobs@.len() + tile,
                forall|i: int|
                    0 <= i < work@.len() ==> #[trigger] work@[i] == (PlanarBlock {
                        band: (i / jobs@.len() as int) as usize,
                        job: jobs@[i % jobs@.len() as int],
                    }),
            decreases jobs@.len() - tile,
        {
            proof {
                lemma_grid_index(band as int, tile as int, jobs@.len() as int, bands as int);
            }
            work.push(PlanarBlock { band, job: jobs[tile] });
            tile = tile + 1;
        }
        proof {
            assert((band + 1) * jobs@.len() == band * jobs@.len() + jobs@.len()) by (nonlinear_arith);
        }
        band = band + 1;
    }
    assert(work@ =~= planar_blocks(jobs@, bands as nat));
    work
}

/// Every tile of every band stands at exactly one place of the output, the tiles of a
/// band in the order of the grid.
pub proof fn law_planar_blocks_hold_each_tile_once(
    jobs: Seq<TileJob>,
    bands: nat,
    band: int,
    tile: int,
)
    requires
        0 <= band < bands <= usize::MAX,
        0 <= tile < jobs.len(),
    ensures
        ({
            let blocks = planar_blocks(jobs, bands);
            let index = band * jobs.len() + tile;
            &&& 0 <= index < blocks.len()
            &&& blocks[index] == (PlanarBlock { band: band as usize, job: jobs[tile] })
            &&& forall|i: int|
                0 <= i < blocks.len() && i / jobs.len() as int == band && i % jobs.len() as int
                    == tile ==> #[trigger] blocks[i] == blocks[index] && i == index
        }),
{
    let blocks = planar_blocks(jobs, bands);
    let index = band * jobs.len() + tile;
    lemma_grid_index(band, tile, jobs.len() as int, bands as int);
    assert forall|i: int|
        0 <= i < blocks.len() && i / jobs.len() as int == band && i % jobs.len() as int
            == tile implies #[trigger] blocks[i] == blocks[index] && i == index by {
        crate::arith::lemma_grid_split(i, jobs.len() as int, bands as int);
    }
}

/// Width and height of a layer of the output: the raster's, divided by the factor of the
/// overview and rounded up.
pub fn output_layer_size(
    crop_width: u32,
    crop_height: u32,
    layer_index: usize,
    levels: &[u32],
) -> (size: (u32, u32))
    requires
        layer_index <= levels@.len(),
        layer_index > 0 ==> levels@[layer_index - 1] > 0,
    ensures
        layer_index == 0 ==> size == (crop_width, crop_height),
        layer_index > 0 ==> size.0 == ceil_div(
            crop_width as nat,
            levels@[layer_index - 1] as nat,
        ) && size.1 == ceil_div(crop_height as nat, levels@[layer_index - 1] as nat),
{
    if layer_index == 0 {
        return (crop_width, crop_height);
    }
    let scale: u32 = levels[layer_index - 1];
    proof {
        lemma_ceil_div(crop_width as nat, scale as nat);
        lemma_ceil_div(crop_height as nat, scale as nat);
    }
    (
        div_ceil(crop_width as usize, scale as usize) as u32,
        div_ceil(crop_height as usize, scale as usize) as u32,
    )
}

/// How the tiles of a layer are compressed: with the predictor of a directory of the
/// source.
pub open spec fn layer_encoding(
    ifd: IfdInfo,
    opts: CogOutputOptions,
    tile_size: usize,
    samples_per_pixel: u16,
) -> TileEncoding {
    tile_encoding(opts, tile_size, samples_per_pixel, Some(predictor_in(ifd)), SampleFormat::Uint)
}

/// How the tiles of a layer are compressed.
pub fn layer_tile_encoding(
    ifd: &IfdInfo,
    opts: &CogOutputOptions,
    tile_size: usize,
    samples_per_pixel: u16,
) -> (encoding: TileEncoding)
    ensures
        encoding == layer_encoding(*ifd, *opts, tile_size, samples_per_pixel),
{
    tile_encoding_from_opts(
        opts,
        tile_size,
        samples_per_pixel,
        Some(ifd_predictor(ifd)),
        SampleFormat::Uint,
    )
}

/// A layer of a cropped output.
#[derive(Debug, Clone, Copy, PartialEq, Eq, Structural)]
pub struct CropLayer {
    pub origin: CropSource,
    pub width: u32,
    pub height: u32,
    pub tile_size: usize,
    /// Whether each band stands in blocks of its own.
    pub planar: bool,
    pub encoding: TileEncoding,
}

/// The tile size of a cropped output: that of the source's image, else the output's.
pub open spec fn crop_tile_size(source: SourceInfo, opts: CogOutputOptions) -> u32 {
    match source.base().tile_width {
        Some(size) => size,
        None => opts.blocksize,
    }
}

/// Whether each band of the output stands in blocks of its own: as in the source, and
/// for a single band.
pub open spec fn is_planar_output(source: SourceInfo, bands: u32) -> bool {
    planar_in(source.base()) == PlanarConfiguration::Planar || bands == 1
}

/// How many samples a block interleaves for each pixel.
pub open spec fn block_samples(planar: bool, bands: u32) -> u16 {
    if planar {
        1
    } else {
        bands as u16
    }
}

/// Tile size and order of bands of the output.
pub fn block_layout(source: &SourceInfo, profile: &RasterProfile, opts: &CogOutputOptions) -> (
    layout: (usize, bool, u16))
    requires
        source.well_formed(),
    ensures
        layout.0 == crop_tile_size(*source, *opts),
        layout.1 == is_planar_output(*source, profile.bands),
        layout.2 == block_samples(layout.1, profile.bands),
{
    let base: IfdInfo = source.ifds[source.base_ifd];
    let tile_size: u32 = match base.tile_width {
        Some(size) => size,
        None => opts.blocksize,
    };
    let planar: bool = ifd_planar(&base) == PlanarConfiguration::Planar || profile.bands == 1;
    let samples: u16 = if planar {
        1
    } else {
        #[verifier::truncate]
        (profile.bands as u16)
    };
    (tile_size as usize, planar, samples)
}

/// The directory whose predictor the tiles of a layer are compressed with: that of the
/// layer that the window is cut out of, else that of the full-size image.
pub open spec fn encoding_ifd(source: SourceInfo, origin: CropSource) -> IfdInfo {
    match origin {
        CropSource::Cut { layer, .. } => if layer == 0 {
            source.base()
        } else {
            source.overviews@[layer - 1]
        },
        CropSource::Generated { .. } => source.base(),
    }
}

/// Whether `layer` is the given layer of a cropped output.
pub open spec fn is_crop_layer(
    source: SourceInfo,
    window: WriteWindow,
    profile: RasterProfile,
    opts: CogOutputOptions,
    levels: Seq<u32>,
    index: int,
    layer: CropLayer,
) -> bool {
    let planar = is_planar_output(source, profile.bands);
    let tile_size = crop_tile_size(source, opts) as usize;
    &&& layer.planar == planar
    &&& layer.tile_size == tile_size
    &&& layer.encoding == layer_encoding(
        encoding_ifd(source, layer.origin),
        opts,
        tile_size,
        block_samples(planar, profile.bands),
    )
    &&& if index == 0 {
        &&& layer.origin == (CropSource::Cut { layer: 0, window })
        &&& layer.width == profile.width
        &&& layer.height == profile.height
    } else {
        &&& is_crop_source(source, window, levels, index - 1, Some(layer.origin))
        &&& layer.width == ceil_div(profile.width as nat, levels[index - 1] as nat)
        &&& layer.height == ceil_div(profile.height as nat, levels[index - 1] as nat)
    }
}

/// The layers of a cropped output: the window of the full-size image, and one layer for
/// each overview; none where an overview has no overview of the source to come from.
pub fn build_hybrid_crop_layers(
    source: &SourceInfo,
    window: &WriteWindow,
    profile: &RasterProfile,
    opts: &CogOutputOptions,
    output_levels: &[u32],
) -> (built: Option<Vec<CropLayer>>)
    requires
        source.well_formed(),
        forall|i: int| 0 <= i < output_levels@.len() ==> #[trigger] output_levels@[i] > 0,
    ensures
        built is Some <==> cropped_from_overviews(*source, *window, output_levels@),
        built matches Some(layers) ==> {
            &&& layers@.len() == 1 + output_levels@.len()
            &&& forall|i: int|
                0 <= i < layers@.len() ==> is_crop_layer(
                    *source,
                    *window,
                    *profile,
                    *opts,
                    output_levels@,
                    i,
                    #[trigger] layers@[i],
                )
        },
{
    let base: IfdInfo = source.ifds[source.base_ifd];
    let overview_count: usize = source.overviews.len();
    let factors: Vec<u32> = input_overview_levels(source);
    let (tile_size, planar, samples) = block_layout(source, profile, opts);
    let mut layers: Vec<CropLayer> = Vec::new();
    layers.push(
        CropLayer {
            origin: CropSource::Cut { layer: 0, window: *window },
            width: profile.width,
            height: profile.height,
            tile_size,
            planar,
            encoding: layer_tile_encoding(&base, opts, tile_size, samples),
        },
    );
    let mut out_idx: usize = 0;
    while out_idx < output_levels.len()
        invariant
            out_idx <= output_levels@.len(),
            overview_count == source.overviews@.len(),
            source.well_formed(),
            base == source.base(),
            factors@ == overview_factors(*source),
            forall|i: int| 0 <= i < output_levels@.len() ==> #[trigger] output_levels@[i] > 0,
            tile_size == crop_tile_size(*source, *opts),
            planar == is_planar_output(*source, profile.bands),
            samples == block_samples(planar, profile.bands),
            layers@.len() == out_idx + 1,
            forall|i: int|
                0 <= i < out_idx ==> !#[trigger] is_crop_source(
                    *source,
                    *window,
                    output_levels@,
                    i,
                    None,
                ),
            forall|i: int|
                0 <= i < layers@.len() ==> is_crop_layer(
                    *source,
                    *window,
                    *profile,
                    *opts,
                    output_levels@,
                    i,
                    #[trigger] layers@[i],
                ),
        decreases output_levels@.len() - out_idx,
    {
        let origin: CropSource = match build_crop_overview_layer(
            source,
            window,
            &factors,
            output_levels,
            out_idx,
        ) {
            Some(origin) => origin,
            None => {
                return None;
            },
        };
        proof {
            if is_crop_source(*source, *window, output_levels@, out_idx as int, None) {
                lemma_one_crop_source(
                    *source,
                    *window,
                    output_levels@,
                    out_idx as int,
                    None,
                    Some(origin),
                );
            }
        }
        let (width, height): (u32, u32) = output_layer_size(
            profile.width,
            profile.height,
            out_idx + 1,
            output_levels,
        );
        let ifd: IfdInfo = match origin {
            CropSource::Cut { layer, .. } => source.overviews[layer - 1],
            CropSource::Generated { .. } => base,
        };
        layers.push(
            CropLayer {
                origin,
                width,
                height,
                tile_size,
                planar,
                encoding: layer_tile_encoding(&ifd, opts, tile_size, samples),
            },
        );
        out_idx = out_idx + 1;
    }
    Some(layers)
}

/// The samples of a tile of one band of an overview: the pixels that were read, reduced
/// to the tile's size and padded; none for a method that weighs samples by fractions.
pub fn generated_planar_samples<T: MeanSample>(
    data: &Grid2<T>,
    job: &TileJob,
    downsample: usize,
    opts: &CogOutputOptions,
    tile_size: usize,
    fill: T,
) -> (samples: Option<Vec<T>>)
    requires
        data.well_formed(),
        opts.resampling == ResamplingChoice::Nearest && job.rows > 0 && job.cols > 0 ==> data.rows
            > 0 && data.cols > 0,
        job.rows <= tile_size,
        job.cols <= tile_size,
        tile_size * tile_size <= usize::MAX,
        job.rows * downsample <= usize::MAX,
        job.cols * downsample <= usize::MAX,
    ensures
        samples is Some <==> integral_method(opts.resampling),
        samples matches Some(out) ==> {
            &&& out@.len() == tile_size * tile_size
            &&& forall|r: int, c: int|
                0 <= r < tile_size && 0 <= c < tile_size ==> #[trigger] sample2(
                    out@,
                    tile_size as int,
                    r,
                    c,
                ) == (if r < job.rows && c < job.cols {
                    reduced_sample(*data, r, c, downsample as int, opts.resampling, None)
                } else {
                    fill
                })
        },
{
    proof {
        crate::arith::lemma_mul_bound(
            job.rows as int,
            job.cols as int,
            tile_size as int,
            tile_size as int,
        );
    }
    match downsample_2d(data, job.rows, job.cols, downsample, opts.resampling, None) {
        None => None,
        Some(reduced) => Some(pad_tile_2d(&reduced, tile_size, fill)),
    }
}

/// The samples of a tile of an overview, all bands: the pixels that were read, reduced
/// to the tile's size and padded; none for a method that weighs samples by fractions.
pub fn generated_chunky_samples<T: MeanSample>(
    data: &Grid3<T>,
    job: &TileJob,
    downsample: usize,
    opts: &CogOutputOptions,
    tile_size: usize,
    fill: T,
) -> (samples: Option<Vec<T>>)
    requires
        data.well_formed(),
        opts.resampling == ResamplingChoice::Nearest && data.bands > 0 && job.rows > 0 && job.cols
            > 0 ==> data.rows > 0 && data.cols > 0,
        job.rows <= tile_size,
        job.cols <= tile_size,
        tile_size * tile_size <= usize::MAX,
        tile_size * tile_size * data.bands <= usize::MAX,
        job.rows * downsample <= usize::MAX,
        job.cols * downsample <= usize::MAX,
    ensures
        samples is Some <==> integral_method(opts.resampling),
        samples matches Some(out) ==> {
            &&& out@.len() == tile_size * tile_size * data.bands
            &&& exists|reduced: Grid3<T>| #[trigger]
                is_reduction(reduced, *data, *job, downsample as int, opts.resampling)
                    && forall|r: int, c: int, b: int|
                    0 <= r < tile_size && 0 <= c < tile_size && 0 <= b < data.bands
                        ==> #[trigger] sample3(
                        out@,
                        tile_size as int,
                        data.bands as int,
                        r,
                        c,
                        b,
                    ) == (if reduced.has(r, c, b) {
                        reduced.at(r, c, b)
                    } else {
                        fill
                    })
        },
{
    proof {
        crate::arith::lemma_mul_bound(
            job.rows as int,
            job.cols as int,
            tile_size as int,
            tile_size as int,
        );
        crate::arith::lemma_mul_bound(
            job.rows * job.cols,
            data.bands as int,
            tile_size * tile_size,
            data.bands as int,
        );
    }
    match downsample_3d(data, job.rows, job.cols, downsample, opts.resampling, None) {
        None => None,
        Some(reduced) => {
            assert(is_reduction(reduced, *data, *job, downsample as int, opts.resampling));
            Some(pad_tile_chunky(&reduced, data.bands, tile_size, fill))
        },
    }
}

/// Whether `reduced` has the size of a tile and holds every band of `data`, reduced.
pub open spec fn is_reduction<T: MeanSample>(
    reduced: Grid3<T>,
    data: Grid3<T>,
    job: TileJob,
    downsample: int,
    method: ResamplingChoice,
) -> bool {
    &&& reduced.rows == job.rows
    &&& reduced.cols == job.cols
    &&& reduced.bands == data.bands
    &&& forall|b: int|
        0 <= b < reduced.bands ==> #[trigger] band_reduced(
            reduced,
            data,
            b,
            downsample,
            method,
            None,
        )
}

/// A window in pixels of an overview begins with the pixel that holds the window's first one,
/// and has as many pixels as fit it whole.
pub proof fn law_overview_window_shares_corner(window: WriteWindow, scale: nat)
    requires
        scale > 0,
    ensures
        ({
            let scaled = window_at(window, scale);
            &&& scaled.col_off * scale <= window.col_off < (scaled.col_off + 1) * scale
            &&& scaled.row_off * scale <= window.row_off < (scaled.row_off + 1) * scale
            &&& scaled.width * scale <= window.width < (scaled.width + 1) * scale
            &&& scaled.height * scale <= window.height < (scaled.height + 1) * scale
        }),
{
    crate::crop::lemma_share(window.col_off as int, scale as int);
    crate::crop::lemma_share(window.row_off as int, scale as int);
    crate::crop::lemma_share(window.width as int, scale as int);
    crate::crop::lemma_share(window.height as int, scale as int);
}

/// An overview of a crop that is cut is cut out of the overview of the source with the same
/// factor, in the window that is smaller by this factor. Wherever the source has that
/// overview and the window lies within it, it is cut, and not reduced.
pub proof fn law_overviews_are_cut_from_the_same_factor(
    source: SourceInfo,
    window: WriteWindow,
    levels: Seq<u32>,
    overview: int,
    origin: Option<CropSource>,
)
    requires
        source.overviews@.len() <= usize::MAX,
        is_crop_source(source, window, levels, overview, origin),
        levels[overview] > 0,
    ensures
        origin matches Some(CropSource::Cut { layer, window: part }) ==> {
            &&& 1 <= layer <= source.overviews@.len()
            &&& overview_factors(source)[layer - 1] == levels[overview]
            &&& part == window_at(window, levels[overview] as nat)
            &&& part.col_off + part.width <= source.overviews@[layer - 1].width
            &&& part.row_off + part.height <= source.overviews@[layer - 1].height
        },
        ({
            let same = factor_position(overview_factors(source), levels[overview], 0);
            let part = window_at(window, levels[overview] as nat);
            same is Some && part.col_off < source.overviews@[same->0].width && part.row_off
                < source.overviews@[same->0].height && part.col_off + part.width
                <= source.overviews@[same->0].width && part.row_off + part.height
                <= source.overviews@[same->0].height ==> origin matches Some(CropSource::Cut { .. })
        }),
{
    lemma_factor_position(overview_factors(source), levels[overview], 0);
}

/// The layers of a crop: the full-size image is cut out of that of the source in the window
/// itself. An overview has a pixel for each block of pixels of the crop, also for one that is
/// cut short.
pub proof fn law_crop_layers_cover_the_crop(
    source: SourceInfo,
    window: WriteWindow,
    profile: RasterProfile,
    opts: CogOutputOptions,
    levels: Seq<u32>,
    index: int,
    layer: CropLayer,
)
    requires
        is_crop_layer(source, window, profile, opts, levels, index, layer),
        0 <= index,
        index > 0 ==> levels[index - 1] > 0,
    ensures
        index == 0 ==> layer.origin == (CropSource::Cut { layer: 0, window }) && layer.width
            == profile.width && layer.height == profile.height,
        index > 0 ==> ({
            let level = levels[index - 1];
            &&& profile.width <= layer.width * level < profile.width + level
            &&& profile.height <= layer.height * level < profile.height + level
        }),
        layer.encoding.compression == opts.compression.scheme(),
        layer.encoding.tile_width == layer.tile_size,
        source.base().tile_width matches Some(size) ==> layer.tile_size == size as usize,
        layer.planar ==> layer.encoding.samples_per_pixel == 1,
        !layer.planar ==> layer.encoding.samples_per_pixel == profile.bands as u16,
        planar_in(source.base()) is Planar ==> layer.planar,
        layer.origin matches CropSource::Cut { layer: from, .. } ==> (if from == 0 {
            layer.encoding.predictor == predictor_in(source.base())
        } else {
            layer.encoding.predictor == predictor_in(source.overviews@[from - 1])
        }),
        layer.origin is Generated ==> layer.encoding.predictor == predictor_in(source.base()),
{
    if index > 0 {
        lemma_ceil_div(profile.width as nat, levels[index - 1] as nat);
        lemma_ceil_div(profile.height as nat, levels[index - 1] as nat);
    }
}

/// A pixel of a tile that is made from a finer layer by averaging is the mean of the block of
/// pixels that it stands for, in its own band; by the nearest sample it is the first of them.
pub proof fn law_generated_pixel_stands_for_its_block<T: MeanSample>(
    reduced: Grid3<T>,
    data: Grid3<T>,
    job: TileJob,
    downsample: nat,
    method: ResamplingChoice,
    r: int,
    c: int,
    b: int,
)
    requires
        0 < downsample,
        is_reduction(reduced, data, job, downsample as int, method),
        reduced.has(r, c, b),
    ensures
        reduced.rows == job.rows,
        reduced.cols == job.cols,
        reduced.bands == data.bands,
        method is Average ==> is_block_mean(
            reduced.at(r, c, b),
            |i: int, j: int| data.at(i, j, b),
            |i: int, j: int| 0 <= i < data.rows && 0 <= j < data.cols,
            None,
            r * downsample,
            c * downsample,
            downsample,
        ),
        method is Nearest && r * downsample < data.rows && c * downsample < data.cols
            ==> reduced.at(r, c, b) == data.at(r * downsample, c * downsample, b),
{
    assert(band_reduced(reduced, data, b, downsample as int, method, None));
    let plane = choose|plane: Grid2<T>| #[trigger]
        is_band(plane, data, b) && forall|i: int, j: int|
            reduced.has(i, j, b) ==> #[trigger] reduced.at(i, j, b) == reduced_sample(
                plane,
                i,
                j,
                downsample as int,
                method,
                None,
            );
    if method is Average {
        lemma_average_is_block_mean(plane, r, c, downsample, None, reduced.at(r, c, b));
        lemma_block_means_move(
            reduced.at(r, c, b),
            |i: int, j: int| plane.at(i, j),
            |i: int, j: int| plane.has(i, j),
            |i: int, j: int| data.at(i, j, b),
            |i: int, j: int| 0 <= i < data.rows && 0 <= j < data.cols,
            None,
            r * downsample,
            c * downsample,
            0,
            0,
            downsample,
        );
    }
    if method is Nearest && r * downsample < data.rows && c * downsample < data.cols {
        lemma_mul_bound(r, downsample as int, r, downsample as int);
        lemma_mul_bound(c, downsample as int, c, downsample as int);
        law_nearest_is_first_of_block(plane, r, c, downsample, None);
        assert(plane.has(r * downsample, c * downsample));
    }
}

/// An overview of a crop that is cut comes from the overview of the source with its own
/// factor, and one that is made from a finer layer comes from one whose factor goes into its
/// own.
pub proof fn law_crop_overviews_have_their_own_factor(
    source: SourceInfo,
    window: WriteWindow,
    profile: RasterProfile,
    opts: CogOutputOptions,
    levels: Seq<u32>,
    index: int,
    layer: CropLayer,
)
    requires
        is_crop_layer(source, window, profile, opts, levels, index, layer),
        0 < index,
        levels[index - 1] > 0,
        source.overviews@.len() <= usize::MAX,
    ensures
        layer.origin matches CropSource::Cut { layer: from, window: part } ==> {
            &&& 1 <= from <= source.overviews@.len()
            &&& overview_factors(source)[from - 1] == levels[index - 1]
            &&& part == window_at(window, levels[index - 1] as nat)
        },
        layer.origin matches CropSource::Generated { layer: from, window: part, factor } ==> {
            &&& overview_factors(source)[from - 1] == factor
            &&& 1 < factor
            &&& levels[index - 1] % factor == 0
            &&& part == window_at(window, factor as nat)
        },
{
    law_overviews_are_cut_from_the_same_factor(
        source,
        window,
        levels,
        index - 1,
        Some(layer.origin),
    );
    if let CropSource::Generated { layer: from, window: part, factor } = layer.origin {
        law_crops_read_finer_overviews(source, window, levels, index - 1, from, part, factor);
    }
}

/// Each band has blocks of its own if it has so in the source, or if it is the only one; blocks
/// hold the samples of one band, or of all.
pub proof fn law_blocks_hold_one_band_or_all(source: SourceInfo, bands: u32)
    requires
        bands <= u16::MAX,
    ensures
        bands == 1 ==> is_planar_output(source, bands),
        bands != 1 ==> (is_planar_output(source, bands) <==> planar_in(source.base()) is Planar),
        block_samples(true, bands) == 1,
        block_samples(false, bands) == bands,
{
}

/// A window fits an overview if it begins and ends in it, counted in the overview's pixels.
pub proof fn law_fitting_windows_lie_within(ifd: IfdInfo, window: WriteWindow, level: nat)
    requires
        0 < level,
    ensures
        level_fits(ifd, window, level) ==> window.col_off < ifd.width * level && window.row_off
            < ifd.height * level,
        window.col_off + window.width <= ifd.width && window.row_off + window.height <= ifd.height
            && window.width > 0 && window.height > 0 && level == 1 ==> level_fits(
            ifd,
            window,
            level,
        ),
{
    law_overview_window_shares_corner(window, level);
    let scaled = window_at(window, level);
    if level_fits(ifd, window, level) {
        lemma_mul_bound(scaled.col_off + 1, level as int, ifd.width as int, level as int);
        lemma_mul_bound(scaled.row_off + 1, level as int, ifd.height as int, level as int);
    }
}

} // verus!
