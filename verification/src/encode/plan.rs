//! Which windows of the source are read for which output tiles.
use crate::arith::{
    ceil_div, div_ceil, lemma_ceil_div, lemma_grid_index, lemma_grid_split, lemma_mul_bound, max_of,
    min_of,
};
use crate::bands::band_seq;
use crate::cog::grid::{overview_dimensions, reduced_side, tile_grid, TileJob};
use crate::crop::WriteWindow;
use crate::hybrid_crop::{scale_window, window_at};
use vstd::prelude::*;
use vstd::set_lib::{lemma_int_range, lemma_map_size, set_int_range};

verus! {

/// How many rows of tiles a layer of the given size has.
pub fn row_group_count(_width: u32, height: u32, tile_size: usize) -> (count: u64)
    requires
        tile_size > 0,
    ensures
        count == ceil_div(height as nat, tile_size as nat),
{
    div_ceil(height as usize, tile_size) as u64
}

/// The rows of tiles of the overviews at `levels`.
pub open spec fn overview_row_groups(height: nat, tile_size: nat, levels: Seq<u32>) -> nat
    decreases levels.len(),
{
    if levels.len() == 0 {
        0
    } else {
        overview_row_groups(height, tile_size, levels.drop_last()) + ceil_div(
            reduced_side(height, levels.last() as nat),
            tile_size,
        )
    }
}

/// The rows of tiles of the full-size layer and of all overviews.
pub fn encode_row_group_total(width: u32, height: u32, tile_size: usize, levels: &[u32]) -> (total:
    u64)
    requires
        tile_size > 0,
        forall|i: int| 0 <= i < levels@.len() ==> #[trigger] levels@[i] > 0,
        ceil_div(height as nat, tile_size as nat) + overview_row_groups(
            height as nat,
            tile_size as nat,
            levels@,
        ) <= u64::MAX,
    ensures
        total == ceil_div(height as nat, tile_size as nat) + overview_row_groups(
            height as nat,
            tile_size as nat,
            levels@,
        ),
{
    let mut total: u64 = row_group_count(width, height, tile_size);
    proof {
        lemma_ceil_div(height as nat, tile_size as nat);
        assert(levels@.take(0) =~= Seq::<u32>::empty());
    }
    let mut i: usize = 0;
    while i < levels.len()
        invariant
            i <= levels@.len(),
            tile_size > 0,
            ceil_div(height as nat, tile_size as nat) + overview_row_groups(
                height as nat,
                tile_size as nat,
                levels@,
            ) <= u64::MAX,
            forall|j: int| 0 <= j < levels@.len() ==> #[trigger] levels@[j] > 0,
            total == ceil_div(height as nat, tile_size as nat) + overview_row_groups(
                height as nat,
                tile_size as nat,
                levels@.take(i as int),
            ),
        decreases levels@.len() - i,
    {
        let (ov_w, ov_h): (u32, u32) = overview_dimensions(width, height, levels[i]);
        let groups: u64 = row_group_count(ov_w, ov_h, tile_size);
        proof {
            lemma_ceil_div(ov_h as nat, tile_size as nat);
            assert(levels@.take(i + 1).drop_last() =~= levels@.take(i as int));
            assert(levels@.take(i + 1).last() == levels@[i as int]);
            lemma_row_groups_grow(height as nat, tile_size as nat, levels@, i + 1);
        }
        total = total + groups;
        i = i + 1;
    }
    assert(levels@.take(i as int) =~= levels@);
    total
}

proof fn lemma_row_groups_grow(height: nat, tile_size: nat, levels: Seq<u32>, count: int)
    requires
        0 <= count <= levels.len(),
    ensures
        overview_row_groups(height, tile_size, levels.take(count)) <= overview_row_groups(
            height,
            tile_size,
            levels,
        ),
    decreases levels.len(),
{
    if count == levels.len() {
        assert(levels.take(count) =~= levels);
    } else {
        lemma_row_groups_grow(height, tile_size, levels.drop_last(), count);
        assert(levels.drop_last().take(count) =~= levels.take(count));
    }
}

/// The rows of a raster in which tiles start.
pub open spec fn tile_starts(tiles: Seq<TileJob>) -> Set<int> {
    Set::new(|row: int| exists|i: int| 0 <= i < tiles.len() && #[trigger] tiles[i].row_off == row)
}

/// In how many different rows the tiles of the overviews at `levels` start.
pub open spec fn overview_tile_starts(
    width: nat,
    height: nat,
    tile_size: nat,
    levels: Seq<u32>,
) -> nat
    decreases levels.len(),
{
    if levels.len() == 0 {
        0
    } else {
        overview_tile_starts(width, height, tile_size, levels.drop_last()) + tile_starts(
            tile_grid(
                reduced_side(width, levels.last() as nat),
                reduced_side(height, levels.last() as nat),
                tile_size,
            ),
        ).len()
    }
}

/// The rows of tiles are counted by the different rows in which tiles start.
proof fn lemma_tile_starts(width: nat, height: nat, tile: nat)
    requires
        0 < tile <= u32::MAX,
        0 < width <= u32::MAX,
        height <= u32::MAX,
    ensures
        tile_starts(tile_grid(width, height, tile)).len() == ceil_div(height, tile),
{
    let across = ceil_div(width, tile) as int;
    let down = ceil_div(height, tile) as int;
    let tiles = tile_grid(width, height, tile);
    lemma_ceil_div(width, tile);
    let rows = set_int_range(0, down);
    let start = |row: int| row * tile;
    lemma_int_range(0, down);
    assert forall|a: int, b: int|
        rows.contains(a) && rows.contains(b) && #[trigger] start(a) == #[trigger] start(
            b,
        ) implies a == b by {
        assert(a == b) by (nonlinear_arith)
            requires
                a * tile == b * tile,
                tile > 0,
        ;
    }
    assert forall|at: int| tile_starts(tiles).contains(at) <==> rows.map(start).contains(at) by {
        if tile_starts(tiles).contains(at) {
            let i = choose|i: int| 0 <= i < tiles.len() && #[trigger] tiles[i].row_off == at;
            lemma_grid_split(i, across, down);
            crate::cog::grid::lemma_tile_job_bounds(width, height, tile, i / across, i % across);
            assert(rows.contains(i / across) && start(i / across) == at);
        }
        if rows.map(start).contains(at) {
            let row = choose|row: int| rows.contains(row) && start(row) == at;
            law_row_groups_follow_tile_grid(width, height, tile, row, 0);
            assert(tiles[row * across + 0].row_off == at);
        }
    }
    assert(rows.map(start) =~= tile_starts(tiles));
    lemma_map_size(rows, tile_starts(tiles), start);
}

/// The total of row groups is the number of different rows in which the tiles of the raster
/// start, and those of each overview.
pub proof fn law_row_groups_are_distinct_tile_rows(
    width: nat,
    height: nat,
    tile_size: nat,
    levels: Seq<u32>,
)
    requires
        0 < tile_size <= u32::MAX,
        0 < width <= u32::MAX,
        height <= u32::MAX,
        forall|i: int| 0 <= i < levels.len() ==> #[trigger] levels[i] > 0,
    ensures
        ceil_div(height, tile_size) + overview_row_groups(height, tile_size, levels)
            == tile_starts(tile_grid(width, height, tile_size)).len() + overview_tile_starts(
            width,
            height,
            tile_size,
            levels,
        ),
    decreases levels.len(),
{
    lemma_tile_starts(width, height, tile_size);
    if levels.len() > 0 {
        let front = levels.drop_last();
        assert forall|i: int| 0 <= i < front.len() implies #[trigger] front[i] > 0 by {
            assert(front[i] == levels[i]);
        }
        law_row_groups_are_distinct_tile_rows(width, height, tile_size, front);
        let level = levels.last() as nat;
        assert(levels.last() == levels[levels.len() - 1]);
        lemma_div_at_most(width as int, level as int);
        lemma_div_at_most(height as int, level as int);
        lemma_tile_starts(reduced_side(width, level), reduced_side(height, level), tile_size);
    }
}

/// A row of output tiles: the index of its first tile, how many tiles it has, and the
/// raster row in which they start.
#[derive(Debug, Clone, Copy, PartialEq, Eq, Structural)]
pub struct RowGroup {
    pub first: usize,
    pub count: usize,
    pub row_off: usize,
}

/// The rows of tiles of a raster, from top to bottom. A raster without columns has no
/// tiles and no rows of tiles.
pub fn row_groups(width: u32, height: u32, tile_size: u32) -> (groups: Vec<RowGroup>)
    requires
        tile_size > 0,
        ceil_div(height as nat, tile_size as nat) * ceil_div(width as nat, tile_size as nat)
            <= usize::MAX,
    ensures
        groups@.len() == (if width == 0 {
            0
        } else {
            ceil_div(height as nat, tile_size as nat)
        }),
        forall|k: int|
            0 <= k < groups@.len() ==> {
                let across = ceil_div(width as nat, tile_size as nat);
                &&& (#[trigger] groups@[k]).first == k * across
                &&& groups@[k].count == across
                &&& groups@[k].row_off == k * tile_size
            },
{
    let across: usize = div_ceil(width as usize, tile_size as usize);
    let down: usize = div_ceil(height as usize, tile_size as usize);
    let mut groups: Vec<RowGroup> = Vec::new();
    if width == 0 {
        return groups;
    }
    let mut row: usize = 0;
    proof {
        lemma_ceil_div(height as nat, tile_size as nat);
    }
    while row < down
        invariant
            row <= down,
            tile_size > 0,
            across == ceil_div(width as nat, tile_size as nat),
            down == ceil_div(height as nat, tile_size as nat),
            down * across <= usize::MAX,
            height > 0 ==> (down - 1) * tile_size < height,
            height == 0 ==> down == 0,
            groups@.len() == row,
            forall|k: int|
                0 <= k < groups@.len() ==> {
                    &&& (#[trigger] groups@[k]).first == k * across
                    &&& groups@[k].count == across
                    &&& groups@[k].row_off == k * tile_size
                },
        decreases down - row,
    {
        proof {
            lemma_mul_bound(row as int, across as int, down as int, across as int);
            lemma_mul_bound(row as int, tile_size as int, down - 1, tile_size as int);
        }
        groups.push(
            RowGroup { first: row * across, count: across, row_off: row * tile_size as usize },
        );
        row = row + 1;
    }
    groups
}

/// The tiles of a row of tiles start in its row, and follow each other in the tile
/// grid of the raster from the row's first index on.
pub proof fn law_row_groups_follow_tile_grid(
    width: nat,
    height: nat,
    tile: nat,
    row: int,
    col: int,
)
    requires
        0 < tile <= u32::MAX,
        width <= u32::MAX,
        height <= u32::MAX,
        0 <= row < ceil_div(height, tile),
        0 <= col < ceil_div(width, tile),
    ensures
        ({
            let index = row * ceil_div(width, tile) + col;
            let tiles = tile_grid(width, height, tile);
            &&& 0 <= index < tiles.len()
            &&& tiles[index].row_off == row * tile
            &&& tiles[index].col_off == col * tile
        }),
{
    lemma_grid_index(row, col, ceil_div(width, tile) as int, ceil_div(height, tile) as int);
    crate::cog::grid::lemma_tile_job_bounds(width, height, tile, row, col);
}

/// The source window of an output tile of an overview that is reduced from the full
/// size: where it starts, its columns and its rows. It is cut at the raster's edge.
pub open spec fn source_window(
    job: TileJob,
    scale: nat,
    width: nat,
    height: nat,
    window: Option<WriteWindow>,
) -> (int, int, int, int) {
    let base_col = match window {
        Some(w) => w.col_off as int,
        None => 0,
    };
    let base_row = match window {
        Some(w) => w.row_off as int,
        None => 0,
    };
    let src_col = base_col + job.col_off * scale;
    let src_row = base_row + job.row_off * scale;
    (
        src_col,
        src_row,
        min_of(job.cols * scale, max_of(width - src_col, 0)),
        min_of(job.rows * scale, max_of(height - src_row, 0)),
    )
}

/// The positions that belong to an output tile fit the machine's integers.
pub open spec fn source_window_fits(job: TileJob, scale: nat, window: Option<WriteWindow>) -> bool {
    let base_col = match window {
        Some(w) => w.col_off as int,
        None => 0,
    };
    let base_row = match window {
        Some(w) => w.row_off as int,
        None => 0,
    };
    &&& base_col + job.col_off * scale <= usize::MAX
    &&& base_row + job.row_off * scale <= usize::MAX
    &&& job.cols * scale <= usize::MAX
    &&& job.rows * scale <= usize::MAX
}

/// Column, row, columns and rows of the source window of an output tile.
pub fn overview_source_window(
    job: &TileJob,
    scale: usize,
    width: usize,
    height: usize,
    window: Option<WriteWindow>,
) -> (region: (usize, usize, usize, usize))
    requires
        source_window_fits(*job, scale as nat, window),
    ensures
        ({
            let expected = source_window(*job, scale as nat, width as nat, height as nat, window);
            &&& region.0 == expected.0
            &&& region.1 == expected.1
            &&& region.2 == expected.2
            &&& region.3 == expected.3
        }),
{
    let (base_col, base_row): (usize, usize) = match window {
        Some(w) => (w.col_off, w.row_off),
        None => (0, 0),
    };
    proof {
        lemma_mul_bound(job.col_off as int, scale as int, job.col_off as int, scale as int);
        lemma_mul_bound(job.row_off as int, scale as int, job.row_off as int, scale as int);
        lemma_mul_bound(job.cols as int, scale as int, job.cols as int, scale as int);
        lemma_mul_bound(job.rows as int, scale as int, job.rows as int, scale as int);
    }
    let src_col: usize = base_col + job.col_off * scale;
    let src_row: usize = base_row + job.row_off * scale;
    let max_cols: usize = width.saturating_sub(src_col);
    let max_rows: usize = height.saturating_sub(src_row);
    let wanted_cols: usize = job.cols * scale;
    let wanted_rows: usize = job.rows * scale;
    (
        src_col,
        src_row,
        if wanted_cols < max_cols {
            wanted_cols
        } else {
            max_cols
        },
        if wanted_rows < max_rows {
            wanted_rows
        } else {
            max_rows
        },
    )
}

/// The window of a source overview from which an output tile is reduced: column, row,
/// columns, rows, and the reduction that is left to do.
pub open spec fn read_region(
    job: TileJob,
    target_level: nat,
    source_factor: nat,
    window: Option<WriteWindow>,
) -> (int, int, int, int, int) {
    let base_col = match window {
        Some(w) => w.col_off as int,
        None => 0,
    };
    let base_row = match window {
        Some(w) => w.row_off as int,
        None => 0,
    };
    let source = max_of(source_factor as int, 1);
    (
        base_col + job.col_off * target_level / source,
        base_row + job.row_off * target_level / source,
        job.cols * target_level / source,
        job.rows * target_level / source,
        max_of(source / target_level as int, 1),
    )
}

/// The window of a source overview from which an output tile is reduced.
pub fn overview_read_region(
    job: &TileJob,
    target_level: u32,
    source_factor: u32,
    window: Option<WriteWindow>,
) -> (region: (usize, usize, usize, usize, usize))
    requires
        target_level > 0,
        source_window_fits(*job, target_level as nat, window),
    ensures
        ({
            let expected = read_region(*job, target_level as nat, source_factor as nat, window);
            &&& region.0 == expected.0
            &&& region.1 == expected.1
            &&& region.2 == expected.2
            &&& region.3 == expected.3
            &&& region.4 == expected.4
        }),
{
    let (base_col, base_row): (usize, usize) = match window {
        Some(w) => (w.col_off, w.row_off),
        None => (0, 0),
    };
    let target: usize = target_level as usize;
    let source: usize = if source_factor < 1 {
        1
    } else {
        source_factor as usize
    };
    proof {
        lemma_mul_bound(job.col_off as int, target as int, job.col_off as int, target as int);
        lemma_mul_bound(job.row_off as int, target as int, job.row_off as int, target as int);
        lemma_mul_bound(job.cols as int, target as int, job.cols as int, target as int);
        lemma_mul_bound(job.rows as int, target as int, job.rows as int, target as int);
        lemma_div_at_most(job.col_off * target, source as int);
        lemma_div_at_most(job.row_off * target, source as int);
    }
    let src_col: usize = base_col + job.col_off * target / source;
    let src_row: usize = base_row + job.row_off * target / source;
    let src_cols: usize = job.cols * target / source;
    let src_rows: usize = job.rows * target / source;
    let ratio: usize = source / target;
    let downsample: usize = if ratio < 1 {
        1
    } else {
        ratio
    };
    (src_col, src_row, src_cols, src_rows, downsample)
}

/// A read of decoded pixels: from the full-size layer, which is layer 0, or from one
/// of the source's overviews, counted from one; of a single band, counted from zero, or
/// of all bands.
#[derive(Debug, Clone, Copy, PartialEq, Eq, Structural)]
pub struct SourceRead {
    pub layer: usize,
    pub band: Option<usize>,
    pub row: usize,
    pub col: usize,
    pub rows: usize,
    pub cols: usize,
}

/// How an output tile is made from a read: which part of the read it is cut from, and
/// by how much that part is then reduced.
#[derive(Debug, Clone, Copy, PartialEq, Eq, Structural)]
pub struct TileCut {
    pub block_index: usize,
    pub col_off: usize,
    pub row_off: usize,
    pub rows: usize,
    pub cols: usize,
    pub crop_row: usize,
    pub crop_col: usize,
    pub crop_rows: usize,
    pub crop_cols: usize,
    pub scale: Option<usize>,
}

/// A read and the output tiles that are cut from it.
#[derive(Debug)]
pub struct BatchRead {
    pub read: SourceRead,
    pub cuts: Vec<TileCut>,
}

/// What a [`BatchRead`] holds.
pub struct BatchView {
    pub read: SourceRead,
    pub cuts: Seq<TileCut>,
}

impl View for BatchRead {
    type V = BatchView;

    open spec fn view(&self) -> BatchView {
        BatchView { read: self.read, cuts: self.cuts@ }
    }
}

impl BatchView {
    /// Every part that is cut out lies within the read.
    pub open spec fn cuts_within_read(self) -> bool {
        forall|i: int|
            0 <= i < self.cuts.len() ==> {
                &&& (#[trigger] self.cuts[i]).crop_row + self.cuts[i].crop_rows <= self.read.rows
                &&& self.cuts[i].crop_col + self.cuts[i].crop_cols <= self.read.cols
            }
    }
}

/// The views of several reads.
pub open spec fn batch_views(reads: Seq<BatchRead>) -> Seq<BatchView> {
    reads.map_values(|read: BatchRead| read@)
}

/// The band that is read where the output has one band: the first of the selected
/// bands, which are counted from one, else the first of all.
pub open spec fn single_band(out_bands: nat, band_map: Option<Seq<usize>>) -> Option<usize> {
    if out_bands == 1 {
        match band_map {
            Some(bands) => Some((bands[0] - 1) as usize),
            None => Some(0usize),
        }
    } else {
        None
    }
}

/// A band selection, where there is one, names a first band.
pub open spec fn band_map_usable(out_bands: nat, band_map: Option<Seq<usize>>) -> bool {
    out_bands == 1 ==> (band_map matches Some(bands) ==> bands.len() > 0 && bands[0] >= 1)
}

fn choose_band(out_bands: usize, band_map: Option<&[usize]>) -> (band: Option<usize>)
    requires
        band_map_usable(out_bands as nat, band_seq(band_map)),
    ensures
        band == single_band(out_bands as nat, band_seq(band_map)),
{
    if out_bands == 1 {
        match band_map {
            Some(bands) => Some(bands[0] - 1),
            None => Some(0),
        }
    } else {
        None
    }
}

/// The column behind the rightmost tile.
pub open spec fn tiles_end(jobs: Seq<TileJob>) -> int
    decreases jobs.len(),
{
    if jobs.len() == 0 {
        0
    } else {
        max_of(tiles_end(jobs.drop_last()), jobs.last().col_off + jobs.last().cols)
    }
}

/// The tiles end within the machine's integers.
pub open spec fn tiles_fit(jobs: Seq<TileJob>) -> bool {
    forall|i: int|
        0 <= i < jobs.len() ==> (#[trigger] jobs[i]).col_off + jobs[i].cols <= usize::MAX
}

/// Every tile ends at or before the end of all tiles.
pub proof fn lemma_tiles_end(jobs: Seq<TileJob>)
    requires
        tiles_fit(jobs),
    ensures
        0 <= tiles_end(jobs) <= usize::MAX,
        forall|i: int|
            0 <= i < jobs.len() ==> (#[trigger] jobs[i]).col_off + jobs[i].cols <= tiles_end(jobs),
    decreases jobs.len(),
{
    if jobs.len() > 0 {
        let front = jobs.drop_last();
        assert(jobs.last() == jobs[jobs.len() - 1]);
        assert forall|i: int| 0 <= i < front.len() implies (#[trigger] front[i]).col_off
            + front[i].cols <= usize::MAX by {
            assert(front[i] == jobs[i]);
        }
        lemma_tiles_end(front);
        assert forall|i: int| 0 <= i < jobs.len() implies (#[trigger] jobs[i]).col_off
            + jobs[i].cols <= tiles_end(jobs) by {
            if i < front.len() {
                assert(front[i] == jobs[i]);
            }
        }
    }
}

fn tiles_end_exec(jobs: &[TileJob]) -> (end: usize)
    requires
        tiles_fit(jobs@),
    ensures
        end == tiles_end(jobs@),
{
    let mut end: usize = 0;
    let mut i: usize = 0;
    assert(jobs@.take(0) =~= Seq::<TileJob>::empty());
    while i < jobs.len()
        invariant
            i <= jobs@.len(),
            tiles_fit(jobs@),
            end == tiles_end(jobs@.take(i as int)),
        decreases jobs@.len() - i,
    {
        let job_end: usize = jobs[i].col_off + jobs[i].cols;
        if job_end > end {
            end = job_end;
        }
        proof {
            assert(jobs@.take(i + 1).drop_last() =~= jobs@.take(i as int));
            assert(jobs@.take(i + 1).last() == jobs@[i as int]);
        }
        i = i + 1;
    }
    assert(jobs@.take(i as int) =~= jobs@);
    end
}

/// The cut of a tile that is a whole-height column range of its read.
pub open spec fn column_cut(job: TileJob, rows: usize, block_index: int) -> TileCut {
    TileCut {
        block_index: block_index as usize,
        col_off: job.col_off,
        row_off: job.row_off,
        rows: job.rows,
        cols: job.cols,
        crop_row: 0,
        crop_col: job.col_off,
        crop_rows: rows,
        crop_cols: job.cols,
        scale: None,
    }
}

/// One read for a row of tiles, from which each tile is cut without reduction.
pub open spec fn column_batch(
    layer: usize,
    band: Option<usize>,
    row: int,
    col: int,
    jobs: Seq<TileJob>,
    first_index: int,
) -> BatchView {
    BatchView {
        read: SourceRead {
            layer,
            band,
            row: row as usize,
            col: col as usize,
            rows: jobs[0].rows,
            cols: tiles_end(jobs) as usize,
        },
        cuts: Seq::new(
            jobs.len(),
            |i: int| column_cut(jobs[i], jobs[0].rows, first_index + i),
        ),
    }
}

fn plan_columns(
    layer: usize,
    band: Option<usize>,
    row: usize,
    col: usize,
    jobs: &[TileJob],
    first_index: usize,
) -> (batch: BatchRead)
    requires
        jobs@.len() > 0,
        tiles_fit(jobs@),
        first_index + jobs@.len() <= usize::MAX,
    ensures
        batch@ == column_batch(layer, band, row as int, col as int, jobs@, first_index as int),
{
    let rows: usize = jobs[0].rows;
    let cols: usize = tiles_end_exec(jobs);
    let mut cuts: Vec<TileCut> = Vec::new();
    let mut i: usize = 0;
    while i < jobs.len()
        invariant
            i <= jobs@.len(),
            first_index + jobs@.len() <= usize::MAX,
            rows == jobs@[0].rows,
            cuts@.len() == i,
            forall|j: int|
                0 <= j < cuts@.len() ==> #[trigger] cuts@[j] == column_cut(
                    jobs@[j],
                    rows,
                    first_index + j,
                ),
        decreases jobs@.len() - i,
    {
        let job: TileJob = jobs[i];
        cuts.push(
            TileCut {
                block_index: first_index + i,
                col_off: job.col_off,
                row_off: job.row_off,
                rows: job.rows,
                cols: job.cols,
                crop_row: 0,
                crop_col: job.col_off,
                crop_rows: rows,
                crop_cols: job.cols,
                scale: None,
            },
        );
        i = i + 1;
    }
    let read = SourceRead { layer, band, row, col, rows, cols };
    let batch = BatchRead { read, cuts };
    proof {
        assert(batch@.cuts =~= column_batch(
            layer,
            band,
            row as int,
            col as int,
            jobs@,
            first_index as int,
        ).cuts);
    }
    batch
}

/// The read for a row of tiles of the full-size layer.
pub fn plan_strip_row_batch(
    out_bands: usize,
    window: Option<WriteWindow>,
    band_map: Option<&[usize]>,
    row_off: usize,
    jobs: &[TileJob],
    first_index: usize,
) -> (batch: BatchRead)
    requires
        jobs@.len() > 0,
        tiles_fit(jobs@),
        first_index + jobs@.len() <= usize::MAX,
        band_map_usable(out_bands as nat, band_seq(band_map)),
        window matches Some(w) ==> w.row_off + row_off <= usize::MAX,
    ensures
        ({
            let origin = match window {
                Some(w) => (w.row_off + row_off, w.col_off as int),
                None => (row_off as int, 0int),
            };
            batch@ == column_batch(
                0,
                single_band(out_bands as nat, band_seq(band_map)),
                origin.0,
                origin.1,
                jobs@,
                first_index as int,
            )
        }),
{
    let band: Option<usize> = choose_band(out_bands, band_map);
    let (src_row, src_col): (usize, usize) = match window {
        Some(w) => (w.row_off + row_off, w.col_off),
        None => (row_off, 0),
    };
    plan_columns(0, band, src_row, src_col, jobs, first_index)
}

/// The least rectangle that holds the source windows of all tiles: first column, first
/// row, and the column and the row behind it.
pub open spec fn source_cover(
    jobs: Seq<TileJob>,
    scale: nat,
    width: nat,
    height: nat,
    window: Option<WriteWindow>,
) -> (int, int, int, int)
    decreases jobs.len(),
{
    if jobs.len() == 0 {
        (usize::MAX as int, usize::MAX as int, 0, 0)
    } else {
        let cover = source_cover(jobs.drop_last(), scale, width, height, window);
        let region = source_window(jobs.last(), scale, width, height, window);
        (
            min_of(cover.0, region.0),
            min_of(cover.1, region.1),
            max_of(cover.2, region.0 + region.2),
            max_of(cover.3, region.1 + region.3),
        )
    }
}

/// The positions that belong to the tiles fit the machine's integers.
pub open spec fn source_windows_fit(
    jobs: Seq<TileJob>,
    scale: nat,
    window: Option<WriteWindow>,
) -> bool {
    forall|i: int| 0 <= i < jobs.len() ==> source_window_fits(#[trigger] jobs[i], scale, window)
}

proof fn lemma_source_window(
    job: TileJob,
    scale: nat,
    width: nat,
    height: nat,
    window: Option<WriteWindow>,
)
    requires
        width <= usize::MAX,
        height <= usize::MAX,
        source_window_fits(job, scale, window),
    ensures
        ({
            let region = source_window(job, scale, width, height, window);
            &&& 0 <= region.0 <= usize::MAX
            &&& 0 <= region.1 <= usize::MAX
            &&& 0 <= region.2
            &&& 0 <= region.3
            &&& region.0 + region.2 <= usize::MAX
            &&& region.1 + region.3 <= usize::MAX
        }),
{
    lemma_mul_bound(job.col_off as int, scale as int, job.col_off as int, scale as int);
    lemma_mul_bound(job.row_off as int, scale as int, job.row_off as int, scale as int);
    lemma_mul_bound(job.cols as int, scale as int, job.cols as int, scale as int);
    lemma_mul_bound(job.rows as int, scale as int, job.rows as int, scale as int);
}

proof fn lemma_source_cover(
    jobs: Seq<TileJob>,
    scale: nat,
    width: nat,
    height: nat,
    window: Option<WriteWindow>,
)
    requires
        width <= usize::MAX,
        height <= usize::MAX,
        source_windows_fit(jobs, scale, window),
    ensures
        ({
            let cover = source_cover(jobs, scale, width, height, window);
            &&& 0 <= cover.0 <= usize::MAX
            &&& 0 <= cover.1 <= usize::MAX
            &&& 0 <= cover.2 <= usize::MAX
            &&& 0 <= cover.3 <= usize::MAX
            &&& forall|i: int|
                0 <= i < jobs.len() ==> {
                    let region = source_window(#[trigger] jobs[i], scale, width, height, window);
                    &&& cover.0 <= region.0
                    &&& cover.1 <= region.1
                    &&& region.0 + region.2 <= cover.2
                    &&& region.1 + region.3 <= cover.3
                }
        }),
    decreases jobs.len(),
{
    if jobs.len() > 0 {
        let front = jobs.drop_last();
        assert forall|i: int| 0 <= i < front.len() implies source_window_fits(
            #[trigger] front[i],
            scale,
            window,
        ) by {
            assert(front[i] == jobs[i]);
        }
        assert(jobs.last() == jobs[jobs.len() - 1]);
        lemma_source_cover(front, scale, width, height, window);
        lemma_source_window(jobs.last(), scale, width, height, window);
        let cover = source_cover(jobs, scale, width, height, window);
        assert forall|i: int| 0 <= i < jobs.len() implies {
            let region = source_window(#[trigger] jobs[i], scale, width, height, window);
            &&& cover.0 <= region.0
            &&& cover.1 <= region.1
            &&& region.0 + region.2 <= cover.2
            &&& region.1 + region.3 <= cover.3
        } by {
            if i < front.len() {
                assert(front[i] == jobs[i]);
            }
        }
    }
}

fn source_cover_exec(
    jobs: &[TileJob],
    scale: usize,
    width: usize,
    height: usize,
    window: Option<WriteWindow>,
) -> (cover: (usize, usize, usize, usize))
    requires
        source_windows_fit(jobs@, scale as nat, window),
    ensures
        ({
            let expected = source_cover(jobs@, scale as nat, width as nat, height as nat, window);
            &&& cover.0 == expected.0
            &&& cover.1 == expected.1
            &&& cover.2 == expected.2
            &&& cover.3 == expected.3
        }),
{
    let mut min_col: usize = usize::MAX;
    let mut min_row: usize = usize::MAX;
    let mut max_col_end: usize = 0;
    let mut max_row_end: usize = 0;
    let mut i: usize = 0;
    assert(jobs@.take(0) =~= Seq::<TileJob>::empty());
    while i < jobs.len()
        invariant
            i <= jobs@.len(),
            source_windows_fit(jobs@, scale as nat, window),
            ({
                let expected = source_cover(
                    jobs@.take(i as int),
                    scale as nat,
                    width as nat,
                    height as nat,
                    window,
                );
                &&& min_col == expected.0
                &&& min_row == expected.1
                &&& max_col_end == expected.2
                &&& max_row_end == expected.3
            }),
        decreases jobs@.len() - i,
    {
        let (src_col, src_row, src_cols, src_rows): (usize, usize, usize, usize) =
            overview_source_window(&jobs[i], scale, width, height, window);
        proof {
            lemma_source_window(jobs@[i as int], scale as nat, width as nat, height as nat, window);
            assert(jobs@.take(i + 1).drop_last() =~= jobs@.take(i as int));
            assert(jobs@.take(i + 1).last() == jobs@[i as int]);
        }
        if src_col < min_col {
            min_col = src_col;
        }
        if src_row < min_row {
            min_row = src_row;
        }
        if src_col + src_cols > max_col_end {
            max_col_end = src_col + src_cols;
        }
        if src_row + src_rows > max_row_end {
            max_row_end = src_row + src_rows;
        }
        i = i + 1;
    }
    assert(jobs@.take(i as int) =~= jobs@);
    (min_col, min_row, max_col_end, max_row_end)
}

/// The cut of a tile from a read that starts in column `from_col` of row `from_row`.
pub open spec fn reduced_cut(
    job: TileJob,
    region: (int, int, int, int),
    from_col: int,
    from_row: int,
    scale: int,
    block_index: int,
) -> TileCut {
    TileCut {
        block_index: block_index as usize,
        col_off: job.col_off,
        row_off: job.row_off,
        rows: job.rows,
        cols: job.cols,
        crop_row: (region.1 - from_row) as usize,
        crop_col: (region.0 - from_col) as usize,
        crop_rows: region.3 as usize,
        crop_cols: region.2 as usize,
        scale: Some(scale as usize),
    }
}

/// One read of the full-size layer for a row of tiles, each of which is reduced from
/// its own part.
pub open spec fn cover_batch(
    band: Option<usize>,
    scale: nat,
    width: nat,
    height: nat,
    window: Option<WriteWindow>,
    jobs: Seq<TileJob>,
    first_index: int,
) -> BatchView {
    let cover = source_cover(jobs, scale, width, height, window);
    BatchView {
        read: SourceRead {
            layer: 0,
            band,
            row: cover.1 as usize,
            col: cover.0 as usize,
            rows: max_of(cover.3 - cover.1, 0) as usize,
            cols: max_of(cover.2 - cover.0, 0) as usize,
        },
        cuts: Seq::new(
            jobs.len(),
            |i: int|
                reduced_cut(
                    jobs[i],
                    source_window(jobs[i], scale, width, height, window),
                    cover.0,
                    cover.1,
                    scale as int,
                    first_index + i,
                ),
        ),
    }
}

/// A read for a single tile, all of which is reduced to the tile.
pub open spec fn single_batch(
    layer: usize,
    band: Option<usize>,
    job: TileJob,
    region: (int, int, int, int),
    scale: int,
    block_index: int,
) -> BatchView {
    BatchView {
        read: SourceRead {
            layer,
            band,
            row: region.1 as usize,
            col: region.0 as usize,
            rows: region.3 as usize,
            cols: region.2 as usize,
        },
        cuts: seq![reduced_cut(job, region, region.0, region.1, scale, block_index)],
    }
}

/// Where the pixels of an overview come from, and what is asked of them.
#[derive(Debug, Clone, Copy)]
pub struct OverviewSource {
    /// Layer of the source that is read, 0 for the full size.
    pub source_layer: usize,
    /// Decimation factor of that layer.
    pub source_factor: u32,
    /// Decimation factor of the overview.
    pub target_level: u32,
    /// Reduction that is left after the read.
    pub layer_downsample: usize,
    /// Size of the raster that the overview belongs to.
    pub width: usize,
    pub height: usize,
    /// Part of the source that is converted.
    pub window: Option<WriteWindow>,
}

/// The reads for a row of overview tiles. A source overview of the same factor is read
/// at once, from where the window starts in it, and cut; the full-size layer is read at once and every tile reduced from its
/// part; any other source is read tile by tile.
pub open spec fn overview_batches(
    source: OverviewSource,
    band: Option<usize>,
    row_off: int,
    jobs: Seq<TileJob>,
    first_index: int,
) -> Seq<BatchView> {
    if source.source_layer > 0 && source.layer_downsample == 1 {
        seq![
            column_batch(
                source.source_layer,
                band,
                row_off + layer_corner(source).1,
                layer_corner(source).0,
                jobs,
                first_index,
            ),
        ]
    } else if source.source_layer == 0 && source.layer_downsample == source.target_level {
        seq![
            cover_batch(
                band,
                source.target_level as nat,
                source.width as nat,
                source.height as nat,
                source.window,
                jobs,
                first_index,
            ),
        ]
    } else {
        Seq::new(jobs.len(), |i: int| tile_batch(source, band, jobs[i], first_index + i))
    }
}

/// The part of the source that is converted, in pixels of the layer that is read.
pub open spec fn layer_window(source: OverviewSource) -> Option<WriteWindow> {
    match source.window {
        Some(window) => Some(
            window_at(window, max_of(source.source_factor as int, 1) as nat),
        ),
        None => None,
    }
}

/// Column and row of the first pixel that is converted, in the layer that is read.
pub open spec fn layer_corner(source: OverviewSource) -> (int, int) {
    match layer_window(source) {
        Some(window) => (window.col_off as int, window.row_off as int),
        None => (0, 0),
    }
}

/// The read for one overview tile that is not read together with its neighbours. What is
/// left of the overview's factor is reduced after the read.
pub open spec fn tile_batch(
    source: OverviewSource,
    band: Option<usize>,
    job: TileJob,
    block_index: int,
) -> BatchView {
    if source.source_layer == 0 {
        single_batch(
            0,
            band,
            job,
            source_window(
                job,
                source.target_level as nat,
                source.width as nat,
                source.height as nat,
                source.window,
            ),
            source.target_level as int,
            block_index,
        )
    } else {
        let region = read_region(
            job,
            source.target_level as nat,
            source.source_factor as nat,
            layer_window(source),
        );
        single_batch(
            source.source_layer,
            band,
            job,
            (region.0, region.1, region.2, region.3),
            source.layer_downsample as int,
            block_index,
        )
    }
}

/// In pixels of a smaller layer, positions are smaller.
proof fn lemma_layer_window(source: OverviewSource, job: TileJob)
    requires
        source_window_fits(job, source.target_level as nat, source.window),
    ensures
        source_window_fits(job, source.target_level as nat, layer_window(source)),
{
    let factor = max_of(source.source_factor as int, 1);
    if let Some(window) = source.window {
        lemma_div_at_most(window.col_off as int, factor);
        lemma_div_at_most(window.row_off as int, factor);
    }
}

fn scaled_window(source: &OverviewSource) -> (window: Option<WriteWindow>)
    ensures
        window == layer_window(*source),
{
    let factor: u32 = if source.source_factor < 1 {
        1
    } else {
        source.source_factor
    };
    match source.window {
        Some(window) => Some(scale_window(&window, factor)),
        None => None,
    }
}

fn plan_tile(
    source: &OverviewSource,
    band: Option<usize>,
    job: &TileJob,
    block_index: usize,
) -> (batch: BatchRead)
    requires
        source.target_level > 0,
        source_window_fits(*job, source.target_level as nat, source.window),
    ensures
        batch@ == tile_batch(*source, band, *job, block_index as int),
{
    let (layer, col, row, cols, rows, scale): (usize, usize, usize, usize, usize, usize) =
        if source.source_layer == 0 {
        let scale: usize = source.target_level as usize;
        let (col, row, cols, rows): (usize, usize, usize, usize) = overview_source_window(
            job,
            scale,
            source.width,
            source.height,
            source.window,
        );
        (0, col, row, cols, rows, scale)
    } else {
        let window: Option<WriteWindow> = scaled_window(source);
        proof {
            lemma_layer_window(*source, *job);
        }
        let (col, row, cols, rows, _): (usize, usize, usize, usize, usize) =
            overview_read_region(job, source.target_level, source.source_factor, window);
        (source.source_layer, col, row, cols, rows, source.layer_downsample)
    };
    let read = SourceRead { layer, band, row, col, rows, cols };
    let mut cuts: Vec<TileCut> = Vec::new();
    cuts.push(
        TileCut {
            block_index,
            col_off: job.col_off,
            row_off: job.row_off,
            rows: job.rows,
            cols: job.cols,
            crop_row: 0,
            crop_col: 0,
            crop_rows: rows,
            crop_cols: cols,
            scale: Some(scale),
        },
    );
    let batch = BatchRead { read, cuts };
    assert(batch@.cuts =~= tile_batch(*source, band, *job, block_index as int).cuts);
    batch
}

fn plan_cover(
    source: &OverviewSource,
    band: Option<usize>,
    jobs: &[TileJob],
    first_index: usize,
) -> (batch: BatchRead)
    requires
        first_index + jobs@.len() <= usize::MAX,
        source_windows_fit(jobs@, source.target_level as nat, source.window),
    ensures
        batch@ == cover_batch(
            band,
            source.target_level as nat,
            source.width as nat,
            source.height as nat,
            source.window,
            jobs@,
            first_index as int,
        ),
{
    let scale: usize = source.target_level as usize;
    let width: usize = source.width;
    let height: usize = source.height;
    let window: Option<WriteWindow> = source.window;
    let (min_col, min_row, max_col_end, max_row_end): (usize, usize, usize, usize) =
        source_cover_exec(jobs, scale, width, height, window);
    let ghost cover = source_cover(jobs@, scale as nat, width as nat, height as nat, window);
    let read = SourceRead {
        layer: 0,
        band,
        row: min_row,
        col: min_col,
        rows: max_row_end.saturating_sub(min_row),
        cols: max_col_end.saturating_sub(min_col),
    };
    let mut cuts: Vec<TileCut> = Vec::new();
    let mut i: usize = 0;
    proof {
        lemma_source_cover(jobs@, scale as nat, width as nat, height as nat, window);
    }
    while i < jobs.len()
        invariant
            i <= jobs@.len(),
            first_index + jobs@.len() <= usize::MAX,
            source_windows_fit(jobs@, scale as nat, window),
            cover == source_cover(jobs@, scale as nat, width as nat, height as nat, window),
            min_col == cover.0,
            min_row == cover.1,
            forall|j: int|
                0 <= j < jobs@.len() ==> {
                    let region = source_window(
                        #[trigger] jobs@[j],
                        scale as nat,
                        width as nat,
                        height as nat,
                        window,
                    );
                    &&& cover.0 <= region.0
                    &&& cover.1 <= region.1
                },
            cuts@.len() == i,
            forall|j: int|
                0 <= j < cuts@.len() ==> #[trigger] cuts@[j] == reduced_cut(
                    jobs@[j],
                    source_window(jobs@[j], scale as nat, width as nat, height as nat, window),
                    cover.0,
                    cover.1,
                    scale as int,
                    first_index + j,
                ),
        decreases jobs@.len() - i,
    {
        let job: TileJob = jobs[i];
        let (src_col, src_row, src_cols, src_rows): (usize, usize, usize, usize) =
            overview_source_window(&job, scale, width, height, window);
        cuts.push(
            TileCut {
                block_index: first_index + i,
                col_off: job.col_off,
                row_off: job.row_off,
                rows: job.rows,
                cols: job.cols,
                crop_row: src_row - min_row,
                crop_col: src_col - min_col,
                crop_rows: src_rows,
                crop_cols: src_cols,
                scale: Some(scale),
            },
        );
        i = i + 1;
    }
    let batch = BatchRead { read, cuts };
    proof {
        assert(batch@.cuts =~= cover_batch(
            band,
            scale as nat,
            width as nat,
            height as nat,
            window,
            jobs@,
            first_index as int,
        ).cuts);
    }
    batch
}

/// Plans the reads for a row of overview tiles.
pub fn plan_overview_row_batch(
    source: &OverviewSource,
    out_bands: usize,
    band_map: Option<&[usize]>,
    row_off: usize,
    jobs: &[TileJob],
    first_index: usize,
) -> (batches: Vec<BatchRead>)
    requires
        jobs@.len() > 0,
        source.target_level > 0,
        tiles_fit(jobs@),
        first_index + jobs@.len() <= usize::MAX,
        source_windows_fit(jobs@, source.target_level as nat, source.window),
        source.window matches Some(window) ==> row_off + window.row_off <= usize::MAX,
        band_map_usable(out_bands as nat, band_seq(band_map)),
    ensures
        batch_views(batches@) == overview_batches(
            *source,
            single_band(out_bands as nat, band_seq(band_map)),
            row_off as int,
            jobs@,
            first_index as int,
        ),
{
    let band: Option<usize> = choose_band(out_bands, band_map);
    let ghost expected = overview_batches(
        *source,
        band,
        row_off as int,
        jobs@,
        first_index as int,
    );
    let mut batches: Vec<BatchRead> = Vec::new();
    if source.source_layer > 0 && source.layer_downsample == 1 {
        let (col, row): (usize, usize) = match scaled_window(source) {
            Some(window) => {
                proof {
                    lemma_div_at_most(
                        source.window->0.row_off as int,
                        max_of(source.source_factor as int, 1),
                    );
                }
                (window.col_off, row_off + window.row_off)
            },
            None => (0, row_off),
        };
        batches.push(plan_columns(source.source_layer, band, row, col, jobs, first_index));
        assert(batch_views(batches@) =~= expected);
        return batches;
    }
    if source.source_layer == 0 && source.layer_downsample == source.target_level as usize {
        batches.push(plan_cover(source, band, jobs, first_index));
        assert(batch_views(batches@) =~= expected);
        return batches;
    }
    let mut i: usize = 0;
    while i < jobs.len()
        invariant
            i <= jobs@.len(),
            source.target_level > 0,
            first_index + jobs@.len() <= usize::MAX,
            source_windows_fit(jobs@, source.target_level as nat, source.window),
            batches@.len() == i,
            forall|j: int|
                0 <= j < batches@.len() ==> (#[trigger] batches@[j])@ == tile_batch(
                    *source,
                    band,
                    jobs@[j],
                    first_index + j,
                ),
        decreases jobs@.len() - i,
    {
        batches.push(plan_tile(source, band, &jobs[i], first_index + i));
        i = i + 1;
    }
    assert(batch_views(batches@) =~= expected);
    batches
}

/// Whatever is cut for an overview tile lies within the read that it is cut from.
pub proof fn law_cuts_lie_within_reads(
    source: OverviewSource,
    band: Option<usize>,
    row_off: int,
    jobs: Seq<TileJob>,
    first_index: int,
)
    requires
        jobs.len() > 0,
        source.target_level > 0,
        tiles_fit(jobs),
        source_windows_fit(jobs, source.target_level as nat, source.window),
    ensures
        ({
            let batches = overview_batches(source, band, row_off, jobs, first_index);
            forall|i: int| 0 <= i < batches.len() ==> (#[trigger] batches[i]).cuts_within_read()
        }),
{
    lemma_tiles_end(jobs);
    lemma_source_cover(
        jobs,
        source.target_level as nat,
        source.width as nat,
        source.height as nat,
        source.window,
    );
    let batches = overview_batches(source, band, row_off, jobs, first_index);
    assert forall|i: int| 0 <= i < batches.len() implies (#[trigger] batches[i]).cuts_within_read() by {
        assert forall|j: int| 0 <= j < batches[i].cuts.len() implies {
            &&& (#[trigger] batches[i].cuts[j]).crop_row + batches[i].cuts[j].crop_rows
                <= batches[i].read.rows
            &&& batches[i].cuts[j].crop_col + batches[i].cuts[j].crop_cols <= batches[i].read.cols
        } by {
            if source.source_layer > 0 && source.layer_downsample == 1 {
                assert(jobs[j].col_off + jobs[j].cols <= tiles_end(jobs));
            } else if source.source_layer == 0 && source.layer_downsample == source.target_level {
                lemma_source_window(
                    jobs[j],
                    source.target_level as nat,
                    source.width as nat,
                    source.height as nat,
                    source.window,
                );
            }
        }
    }
}

/// The batch, of those for a row of overview tiles, that the tile with index `i` in the row
/// is cut from, and the cut.
pub open spec fn overview_cut(source: OverviewSource, batches: Seq<BatchView>, i: int) -> (
    SourceRead,
    TileCut,
) {
    if source.source_layer > 0 && source.layer_downsample == 1 || source.source_layer == 0
        && source.layer_downsample == source.target_level {
        (batches[0].read, batches[0].cuts[i])
    } else {
        (batches[i].read, batches[i].cuts[0])
    }
}

/// Where overviews are made from the full size, whether tiles are read together or one by
/// one, what is cut for a tile is the window of the source that the tile stands for, and
/// it is reduced by the overview's factor.
pub proof fn law_cuts_are_source_windows(
    source: OverviewSource,
    band: Option<usize>,
    row_off: int,
    jobs: Seq<TileJob>,
    first_index: int,
    i: int,
)
    requires
        source.source_layer == 0,
        source.target_level > 0,
        tiles_fit(jobs),
        source_windows_fit(jobs, source.target_level as nat, source.window),
        0 <= first_index,
        first_index + jobs.len() <= usize::MAX,
        0 <= i < jobs.len(),
    ensures
        ({
            let (read, cut) = overview_cut(
                source,
                overview_batches(source, band, row_off, jobs, first_index),
                i,
            );
            let window = source_window(
                jobs[i],
                source.target_level as nat,
                source.width as nat,
                source.height as nat,
                source.window,
            );
            &&& read.layer == 0
            &&& read.band == band
            &&& read.col + cut.crop_col == window.0
            &&& read.row + cut.crop_row == window.1
            &&& cut.crop_cols == window.2
            &&& cut.crop_rows == window.3
            &&& cut.block_index == first_index + i
            &&& cut.scale == Some(source.target_level as usize)
            &&& cut.rows == jobs[i].rows
            &&& cut.cols == jobs[i].cols
            &&& cut.row_off == jobs[i].row_off
            &&& cut.col_off == jobs[i].col_off
        }),
{
    lemma_source_cover(
        jobs,
        source.target_level as nat,
        source.width as nat,
        source.height as nat,
        source.window,
    );
    lemma_source_window(
        jobs[i],
        source.target_level as nat,
        source.width as nat,
        source.height as nat,
        source.window,
    );
    let batches = overview_batches(source, band, row_off, jobs, first_index);
    if source.layer_downsample != source.target_level {
        assert(batches[i] == tile_batch(source, band, jobs[i], first_index + i));
    }
}

proof fn lemma_div_at_most(value: int, divisor: int)
    requires
        0 <= value,
        1 <= divisor,
    ensures
        0 <= value / divisor <= value,
{
    vstd::arithmetic::div_mod::lemma_div_pos_is_pos(value, divisor);
    vstd::arithmetic::div_mod::lemma_div_is_ordered_by_denominator(value, 1, divisor);
}

/// A band is selected by its number, counted from one: a single band is read by its place,
/// counted from zero, and more than one are read together.
pub proof fn law_single_bands_are_read_by_number(out_bands: nat, bands: Seq<usize>)
    requires
        band_map_usable(out_bands, Some(bands)),
    ensures
        out_bands != 1 ==> single_band(out_bands, Some(bands)) is None,
        out_bands == 1 ==> (single_band(out_bands, Some(bands)) matches Some(place) && place + 1
            == bands[0]),
        out_bands == 1 ==> single_band(out_bands, None) == Some(0usize),
{
}

/// Where an overview is made from a layer of the source whose factor goes `downsample` times
/// into its own, what is cut for a tile begins, from the window's corner in that layer, at
/// `downsample` times the tile's own row and column, and has `downsample` times its rows and
/// columns. It is reduced by what is left of the factor. The window's corner lies in the pixel
/// of the layer that the corner is given by.
pub proof fn law_layer_cuts_are_at_their_place(
    source: OverviewSource,
    band: Option<usize>,
    row_off: int,
    jobs: Seq<TileJob>,
    first_index: int,
    i: int,
    corner: (int, int),
)
    requires
        source.source_layer > 0,
        source.source_factor > 0,
        source.target_level > 0,
        source.source_factor * source.layer_downsample == source.target_level,
        corner == layer_corner(source),
        tiles_fit(jobs),
        0 <= first_index,
        first_index + jobs.len() <= usize::MAX,
        0 <= i < jobs.len(),
        jobs[i].row_off == row_off,
        jobs[i].rows == jobs[0].rows,
        corner.0 + (jobs[i].col_off + jobs[i].cols) * source.layer_downsample <= usize::MAX,
        corner.1 + (jobs[i].row_off + jobs[i].rows) * source.layer_downsample <= usize::MAX,
    ensures
        ({
            let (read, cut) = overview_cut(
                source,
                overview_batches(source, band, row_off, jobs, first_index),
                i,
            );
            let reduction = source.layer_downsample as int;
            &&& read.layer == source.source_layer
            &&& read.band == band
            &&& read.col + cut.crop_col == corner.0 + jobs[i].col_off * reduction
            &&& read.row + cut.crop_row == corner.1 + jobs[i].row_off * reduction
            &&& cut.crop_cols == jobs[i].cols * reduction
            &&& cut.crop_rows == jobs[i].rows * reduction
            &&& cut.crop_col + cut.crop_cols <= read.cols
            &&& cut.crop_row + cut.crop_rows <= read.rows
            &&& cut.block_index == first_index + i
            &&& reduction == 1 ==> cut.scale is None
            &&& reduction > 1 ==> cut.scale == Some(source.layer_downsample)
            &&& cut.rows == jobs[i].rows
            &&& cut.cols == jobs[i].cols
            &&& cut.row_off == jobs[i].row_off
            &&& cut.col_off == jobs[i].col_off
        }),
        source.window is None ==> corner == (0int, 0int),
        source.window matches Some(window) ==> {
            &&& corner.0 * source.source_factor <= window.col_off < (corner.0 + 1)
                * source.source_factor
            &&& corner.1 * source.source_factor <= window.row_off < (corner.1 + 1)
                * source.source_factor
        },
{
    let factor = source.source_factor as int;
    let reduction = source.layer_downsample as int;
    let level = source.target_level as int;
    let job = jobs[i];
    lemma_tiles_end(jobs);
    if let Some(window) = source.window {
        crate::hybrid_crop::law_overview_window_shares_corner(window, factor as nat);
    }
    assert(reduction > 0) by (nonlinear_arith)
        requires
            factor * reduction == level,
            level > 0,
            factor > 0,
    ;
    lemma_share_of_level(job.col_off as int, factor, reduction, level);
    lemma_share_of_level(job.row_off as int, factor, reduction, level);
    lemma_share_of_level(job.cols as int, factor, reduction, level);
    lemma_share_of_level(job.rows as int, factor, reduction, level);
    assert((job.col_off + job.cols) * reduction == job.col_off * reduction + job.cols * reduction)
        by (nonlinear_arith);
    assert((job.row_off + job.rows) * reduction == job.row_off * reduction + job.rows * reduction)
        by (nonlinear_arith);
    let batches = overview_batches(source, band, row_off, jobs, first_index);
    let (read, cut) = overview_cut(source, batches, i);
    if reduction > 1 {
        let region = read_region(job, level as nat, factor as nat, layer_window(source));
        assert(region.0 == corner.0 + job.col_off * reduction);
        assert(region.1 == corner.1 + job.row_off * reduction);
        assert(region.2 == job.cols * reduction);
        assert(region.3 == job.rows * reduction);
        assert(batches[i] == tile_batch(source, band, job, first_index + i));
        assert(read == batches[i].read);
        assert(cut == batches[i].cuts[0]);
        assert(cut == reduced_cut(
            job,
            (region.0, region.1, region.2, region.3),
            region.0,
            region.1,
            reduction,
            first_index + i,
        ));
    } else {
        assert(job.col_off + job.cols <= tiles_end(jobs));
        assert(job.col_off * reduction == job.col_off && job.row_off * reduction == job.row_off
            && job.cols * reduction == job.cols && job.rows * reduction == job.rows)
            by (nonlinear_arith)
            requires
                reduction == 1,
        ;
        assert(cut == column_cut(job, jobs[0].rows, first_index + i));
        assert(read.row == corner.1 + job.row_off);
        assert(read.col == corner.0);
    }
}

proof fn lemma_share_of_level(at: int, factor: int, reduction: int, level: int)
    requires
        0 <= at,
        0 < factor,
        0 < reduction,
        factor * reduction == level,
    ensures
        at * level / factor == at * reduction,
        0 <= at * reduction,
{
    assert(at * level == (at * reduction) * factor) by (nonlinear_arith)
        requires
            factor * reduction == level,
    ;
    assert(0 <= at * reduction) by (nonlinear_arith)
        requires
            0 <= at,
            0 < reduction,
    ;
    vstd::arithmetic::div_mod::lemma_div_multiples_vanish(at * reduction, factor);
    assert(factor * (at * reduction) == (at * reduction) * factor) by (nonlinear_arith);
}

/// What is read for a tile of an overview, from a layer whose factor goes `ratio` times into
/// that of the overview, begins behind the window's corner at `ratio` times the tile's row and
/// column, and has `ratio` times its rows and columns. A layer that is coarser by a whole
/// factor is reduced by that factor.
pub proof fn law_read_regions_begin_at_the_tile(
    job: TileJob,
    source_factor: nat,
    ratio: nat,
    window: Option<WriteWindow>,
)
    requires
        0 < source_factor,
        0 < ratio,
    ensures
        ({
            let region = read_region(job, source_factor * ratio, source_factor, window);
            let corner = match window {
                Some(win) => (win.col_off as int, win.row_off as int),
                None => (0int, 0int),
            };
            &&& region.0 == corner.0 + job.col_off * ratio
            &&& region.1 == corner.1 + job.row_off * ratio
            &&& region.2 == job.cols * ratio
            &&& region.3 == job.rows * ratio
            &&& region.4 == 1
        }),
        read_region(job, source_factor, source_factor * ratio, window).4 == ratio,
{
    let factor = source_factor as int;
    let level = factor * ratio;
    lemma_share_of_level(job.col_off as int, factor, ratio as int, level);
    lemma_share_of_level(job.row_off as int, factor, ratio as int, level);
    lemma_share_of_level(job.cols as int, factor, ratio as int, level);
    lemma_share_of_level(job.rows as int, factor, ratio as int, level);
    assert(factor <= level) by (nonlinear_arith)
        requires
            level == factor * ratio,
            0 < factor,
            0 < ratio,
    ;
    vstd::arithmetic::div_mod::lemma_div_multiples_vanish(ratio as int, factor);
    if ratio == 1 {
        assert(factor * ratio == factor) by (nonlinear_arith)
            requires
                ratio == 1,
        ;
        vstd::arithmetic::div_mod::lemma_fundamental_div_mod_converse(factor, factor, 1, 0);
    } else {
        assert(factor < level) by (nonlinear_arith)
            requires
                level == factor * ratio,
                0 < factor,
                1 < ratio,
        ;
        vstd::arithmetic::div_mod::lemma_basic_div(factor, level);
    }
}

} // verus!
