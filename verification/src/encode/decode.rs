//! How the pixels of the full-size image are read: by rows of tiles, by windows of a
//! strip, or by tiles of the source.
use crate::arith::{ceil_div, lemma_grid_split, max_of, min_of};
use crate::cog::grid::{
    lemma_tile_job_bounds, tile_count, tile_grid, tile_job_at, tile_jobs, TileJob,
};
use crate::crop::WriteWindow;
use crate::input::profile::{compression_in, input_compression, IfdInfo, SourceInfo};
use crate::tiff::Compression;
use vstd::arithmetic::div_mod::{lemma_fundamental_div_mod, lemma_fundamental_div_mod_converse};
use vstd::prelude::*;

verus! {

/// How many rows of tiles are decoded at once from a large strip.
pub const STRIP_DECODE_TILE_ROWS: usize = 4;

/// How many rows are decoded at once: a small strip as a whole, a large one some rows of
/// tiles at a time.
pub open spec fn decode_rows(rows_per_strip: int, tile_size: int) -> int {
    min_of(
        rows_per_strip,
        max_of(min_of(tile_size * STRIP_DECODE_TILE_ROWS, usize::MAX as int), tile_size),
    )
}

/// How many rows are decoded at once.
pub fn strip_decode_window_rows(rows_per_strip: usize, tile_size: usize) -> (rows: usize)
    ensures
        rows == decode_rows(rows_per_strip as int, tile_size as int),
{
    let product: usize = match tile_size.checked_mul(STRIP_DECODE_TILE_ROWS) {
        Some(product) => product,
        None => usize::MAX,
    };
    let max_window: usize = if product < tile_size {
        tile_size
    } else {
        product
    };
    if rows_per_strip <= max_window {
        rows_per_strip
    } else {
        max_window
    }
}

/// How many rows a strip of the source has, at least one.
pub fn strip_rows_per_strip(ifd: &IfdInfo) -> (rows: usize)
    ensures
        rows == max_of(ifd.rows_per_strip as int, 1),
{
    if ifd.rows_per_strip < 1 {
        1
    } else {
        ifd.rows_per_strip as usize
    }
}

/// Whether strips with this compression are decoded by windows: only where each row of
/// tiles would otherwise decompress the whole strip, and only for the whole raster.
pub fn should_use_strip_windowed_decode_for_compression(
    compression: Compression,
    rows_per_strip: usize,
    tile_size: usize,
    window: Option<WriteWindow>,
) -> (windowed: bool)
    ensures
        windowed == (window is None && rows_per_strip > tile_size && compression
            != Compression::Uncompressed),
{
    if window.is_some() || rows_per_strip <= tile_size {
        return false;
    }
    compression != Compression::Uncompressed
}

/// Whether a source is decoded by windows of its strips: only one whose pixels lie in a
/// single compressed strip.
pub open spec fn strip_windowed(
    ifd: IfdInfo,
    rows_per_strip: int,
    tile_size: int,
    window: Option<WriteWindow>,
) -> bool {
    &&& window is None
    &&& rows_per_strip > tile_size
    &&& !ifd.tiled
    &&& rows_per_strip >= ifd.height
    &&& compression_in(ifd) != Compression::Uncompressed
}

/// Whether a source is decoded by windows of its strips.
pub fn should_use_strip_windowed_decode(
    ifd: &IfdInfo,
    rows_per_strip: usize,
    tile_size: usize,
    window: Option<WriteWindow>,
) -> (windowed: bool)
    ensures
        windowed == strip_windowed(*ifd, rows_per_strip as int, tile_size as int, window),
{
    !ifd.tiled && rows_per_strip >= ifd.height as usize && should_use_strip_windowed_decode_for_compression(
        input_compression(ifd),
        rows_per_strip,
        tile_size,
        window,
    )
}

/// Whether a source is decoded tile by tile.
pub fn should_use_tiled_source_decode(ifd: &IfdInfo, window: Option<WriteWindow>) -> (tiled: bool)
    ensures
        tiled == (window is None && ifd.tiled),
{
    if window.is_some() {
        return false;
    }
    ifd.tiled
}

/// How the full-size image is read.
#[derive(Debug, Clone, Copy, PartialEq, Eq, Structural)]
pub enum BaseLayerPath {
    /// Tile by tile of the source.
    SourceTiles,
    /// By windows of strips with so many rows.
    StripWindows { rows_per_strip: usize },
    /// By rows of output tiles.
    RowGroups,
}

/// How the full-size image is read.
pub open spec fn base_path(
    source: SourceInfo,
    tile_size: int,
    window: Option<WriteWindow>,
) -> BaseLayerPath {
    let ifd = source.base();
    let rows_per_strip = max_of(ifd.rows_per_strip as int, 1);
    if window is None && ifd.tiled {
        BaseLayerPath::SourceTiles
    } else if strip_windowed(ifd, rows_per_strip, tile_size, window) {
        BaseLayerPath::StripWindows { rows_per_strip: rows_per_strip as usize }
    } else {
        BaseLayerPath::RowGroups
    }
}

/// How the full-size image is read.
pub fn stream_base_layer_to_spool(
    source: &SourceInfo,
    tile_size: usize,
    window: Option<WriteWindow>,
) -> (path: BaseLayerPath)
    requires
        source.well_formed(),
    ensures
        path == base_path(*source, tile_size as int, window),
{
    let ifd: IfdInfo = source.ifds[source.base_ifd];
    if should_use_tiled_source_decode(&ifd, window) {
        return BaseLayerPath::SourceTiles;
    }
    let rows_per_strip: usize = strip_rows_per_strip(&ifd);
    if should_use_strip_windowed_decode(&ifd, rows_per_strip, tile_size, window) {
        return BaseLayerPath::StripWindows { rows_per_strip };
    }
    BaseLayerPath::RowGroups
}

/// Rows that are decoded at once, and the output tiles that start in them: those from
/// `first_block` on, before `end_block`, in the order of the grid.
#[derive(Debug, Clone, Copy, PartialEq, Eq, Structural)]
pub struct StripWindow {
    pub row_start: usize,
    pub row_count: usize,
    pub first_block: usize,
    pub end_block: usize,
}

/// The row in which the window starts that holds row `row`: windows start anew with
/// each strip.
pub open spec fn window_start(row: int, rows_per_strip: int, window_rows: int) -> int {
    let strip_start = row / rows_per_strip * rows_per_strip;
    strip_start + (row - strip_start) / window_rows * window_rows
}

/// Whether a window holds its tiles: it starts where their windows start, and ends at
/// the end of the raster at the latest.
pub open spec fn window_holds(
    window: StripWindow,
    width: nat,
    height: nat,
    tile: nat,
    rows_per_strip: int,
) -> bool {
    let rows = decode_rows(rows_per_strip, tile as int);
    &&& window.first_block < window.end_block <= tile_count(width, height, tile)
    &&& window.row_count == max_of(
        min_of(window.row_start + rows, height as int) - window.row_start,
        0,
    )
    &&& forall|i: int|
        window.first_block <= i < window.end_block ==> window.row_start == window_start(
            #[trigger] tile_job_at(width, height, tile, i).row_off as int,
            rows_per_strip,
            rows,
        )
}

proof fn lemma_window_start(row: int, rows_per_strip: int, window_rows: int)
    requires
        0 <= row,
        0 < rows_per_strip,
        0 < window_rows,
    ensures
        0 <= row / rows_per_strip * rows_per_strip <= row,
        row < row / rows_per_strip * rows_per_strip + rows_per_strip,
        0 <= window_start(row, rows_per_strip, window_rows) <= row < window_start(
            row,
            rows_per_strip,
            window_rows,
        ) + window_rows,
{
    lemma_fundamental_div_mod(row, rows_per_strip);
    let q = row / rows_per_strip;
    assert(rows_per_strip * q == q * rows_per_strip) by (nonlinear_arith);
    assert(q >= 0) by (nonlinear_arith)
        requires
            row == q * rows_per_strip + row % rows_per_strip,
            0 <= row,
            0 <= row % rows_per_strip < rows_per_strip,
    ;
    assert(q * rows_per_strip >= 0) by (nonlinear_arith)
        requires
            q >= 0,
            rows_per_strip > 0,
    ;
    let rel = row - q * rows_per_strip;
    lemma_fundamental_div_mod(rel, window_rows);
    let w = rel / window_rows;
    assert(window_rows * w == w * window_rows) by (nonlinear_arith);
    assert(w >= 0) by (nonlinear_arith)
        requires
            rel == w * window_rows + rel % window_rows,
            0 <= rel,
            0 <= rel % window_rows < window_rows,
    ;
    assert(w * window_rows >= 0) by (nonlinear_arith)
        requires
            w >= 0,
            window_rows > 0,
    ;
}

/// Whether a raster with strips is decoded by these windows, from top to bottom: each output
/// tile belongs to one of them, and no two neighbors start in the same row.
pub open spec fn are_strip_windows(
    windows: Seq<StripWindow>,
    width: nat,
    height: nat,
    tile: nat,
    rows_per_strip: int,
) -> bool {
    &&& forall|k: int|
        0 <= k < windows.len() ==> window_holds(
            #[trigger] windows[k],
            width,
            height,
            tile,
            rows_per_strip,
        )
    &&& forall|k: int|
        0 <= k < windows.len() ==> (#[trigger] windows[k]).first_block == (if k == 0 {
            0
        } else {
            windows[k - 1].end_block as int
        })
    &&& forall|k: int|
        1 <= k < windows.len() ==> windows[k - 1].row_start != (#[trigger] windows[k]).row_start
    &&& tile_count(width, height, tile) == (if windows.len() == 0 {
        0
    } else {
        windows.last().end_block as nat
    })
}

/// The windows by which a raster with strips is decoded.
pub fn plan_strip_windows(
    width: u32,
    height: u32,
    tile_size: u32,
    rows_per_strip: usize,
) -> (windows: Vec<StripWindow>)
    requires
        tile_size > 0,
        rows_per_strip > 0,
        tile_count(width as nat, height as nat, tile_size as nat) <= usize::MAX,
        height + rows_per_strip <= usize::MAX,
    ensures
        are_strip_windows(
            windows@,
            width as nat,
            height as nat,
            tile_size as nat,
            rows_per_strip as int,
        ),
{
    let jobs: Vec<TileJob> = tile_jobs(width, height, tile_size);
    let rows: usize = strip_decode_window_rows(rows_per_strip, tile_size as usize);
    let image_height: usize = height as usize;
    let mut windows: Vec<StripWindow> = Vec::new();
    let mut block: usize = 0;
    while block < jobs.len()
        invariant
            block <= jobs@.len(),
            jobs@ == tile_grid(width as nat, height as nat, tile_size as nat),
            jobs@.len() == tile_count(width as nat, height as nat, tile_size as nat),
            rows == decode_rows(rows_per_strip as int, tile_size as int),
            0 < rows <= rows_per_strip,
            tile_size > 0,
            image_height == height,
            height + rows_per_strip <= usize::MAX,
            forall|k: int|
                0 <= k < windows@.len() ==> window_holds(
                    #[trigger] windows@[k],
                    width as nat,
                    height as nat,
                    tile_size as nat,
                    rows_per_strip as int,
                ),
            forall|k: int|
                0 <= k < windows@.len() ==> (#[trigger] windows@[k]).first_block == (if k == 0 {
                    0
                } else {
                    windows@[k - 1].end_block as int
                }),
            forall|k: int|
                1 <= k < windows@.len() ==> windows@[k - 1].row_start != (
                #[trigger] windows@[k]).row_start,
            block == (if windows@.len() == 0 {
                0
            } else {
                windows@.last().end_block as int
            }),
        decreases jobs@.len() - block,
    {
        let row_off: usize = jobs[block].row_off;
        proof {
            lemma_job_row(width as nat, height as nat, tile_size as nat, block as int);
            lemma_window_start(row_off as int, rows_per_strip as int, rows as int);
        }
        let strip_start: usize = row_off / rows_per_strip * rows_per_strip;
        let start: usize = strip_start + (row_off - strip_start) / rows * rows;
        let end: usize = if start + rows <= image_height {
            start + rows
        } else {
            image_height
        };
        let row_count: usize = end.saturating_sub(start);
        let count: usize = windows.len();
        let extends: bool = count > 0 && windows[count - 1].row_start == start;
        if extends {
            let last: StripWindow = windows[count - 1];
            let grown = StripWindow {
                row_start: start,
                row_count,
                first_block: last.first_block,
                end_block: block + 1,
            };
            windows.set(count - 1, grown);
        } else {
            windows.push(
                StripWindow { row_start: start, row_count, first_block: block, end_block: block + 1 },
            );
        }
        block = block + 1;
    }
    windows
}

/// A tile of the grid starts at a multiple of the tile size and ends within the raster.
pub proof fn lemma_job_row(width: nat, height: nat, tile: nat, index: int)
    requires
        0 < tile <= u32::MAX,
        0 <= index < tile_count(width, height, tile),
        height <= u32::MAX,
        width <= u32::MAX,
    ensures
        ({
            let job = tile_job_at(width, height, tile, index);
            let across = ceil_div(width, tile) as int;
            &&& 0 <= index / across < ceil_div(height, tile)
            &&& 0 <= index % across < across
            &&& job.row_off == index / across * tile
            &&& job.col_off == index % across * tile
            &&& job.row_off < height
            &&& job.col_off < width
            &&& 0 < job.rows <= tile
            &&& 0 < job.cols <= tile
            &&& job.row_off + job.rows <= height
            &&& job.col_off + job.cols <= width
        }),
{
    let across = ceil_div(width, tile) as int;
    lemma_grid_split(index, across, ceil_div(height, tile) as int);
    lemma_tile_job_bounds(width, height, tile, index / across, index % across);
}

/// Every output tile lies within the window that it belongs to, if all strips but the
/// last hold whole rows of tiles, or if there is only one strip.
pub proof fn law_tiles_lie_within_strip_windows(
    width: u32,
    height: u32,
    tile_size: u32,
    rows_per_strip: usize,
    window: StripWindow,
    index: int,
)
    requires
        tile_size > 0,
        rows_per_strip > 0,
        rows_per_strip % tile_size as usize == 0 || rows_per_strip >= height,
        tile_size * STRIP_DECODE_TILE_ROWS <= usize::MAX,
        window_holds(
            window,
            width as nat,
            height as nat,
            tile_size as nat,
            rows_per_strip as int,
        ),
        window.first_block <= index < window.end_block,
    ensures
        ({
            let job = tile_job_at(width as nat, height as nat, tile_size as nat, index);
            &&& window.row_start <= job.row_off
            &&& job.row_off + job.rows <= window.row_start + window.row_count
        }),
{
    let tile = tile_size as int;
    let rows = decode_rows(rows_per_strip as int, tile);
    let job = tile_job_at(width as nat, height as nat, tile_size as nat, index);
    lemma_job_row(width as nat, height as nat, tile_size as nat, index);
    let row = job.row_off as int;
    let t = index / ceil_div(width as nat, tile_size as nat) as int;
    lemma_window_start(row, rows_per_strip as int, rows);
    let strip_start = row / rows_per_strip as int * rows_per_strip;
    let rel = row - strip_start;
    let w = rel / rows;
    lemma_fundamental_div_mod(rel, rows);
    assert(rows * w == w * rows) by (nonlinear_arith);
    if rows_per_strip <= tile * STRIP_DECODE_TILE_ROWS && rows_per_strip >= height {
        // One window holds everything.
        lemma_fundamental_div_mod_converse(row, rows_per_strip as int, 0, row);
        lemma_fundamental_div_mod_converse(rel, rows, 0, rel);
    } else {
        // Window and tile start at multiples of the tile size.
        if rows_per_strip >= height {
            lemma_fundamental_div_mod_converse(row, rows_per_strip as int, 0, row);
            assert(strip_start == 0);
            lemma_multiples_fit(t, tile, 4, w);
        } else {
            let n = rows_per_strip as int / tile;
            lemma_fundamental_div_mod(rows_per_strip as int, tile);
            let s = row / rows_per_strip as int;
            assert(rows_per_strip == n * tile) by (nonlinear_arith)
                requires
                    rows_per_strip as int == tile * n,
            ;
            assert(s * rows_per_strip == (s * n) * tile) by (nonlinear_arith)
                requires
                    rows_per_strip == n * tile,
            ;
            assert(rel == (t - s * n) * tile) by (nonlinear_arith)
                requires
                    rel == t * tile - (s * n) * tile,
            ;
            if rows_per_strip <= tile * STRIP_DECODE_TILE_ROWS {
                lemma_multiples_fit(t - s * n, tile, n, w);
            } else {
                lemma_multiples_fit(t - s * n, tile, 4, w);
            }
        }
    }
}

proof fn lemma_multiples_fit(t: int, tile: int, n: int, w: int)
    requires
        tile > 0,
        n > 0,
        w * (n * tile) <= t * tile < w * (n * tile) + n * tile,
    ensures
        t * tile + tile <= w * (n * tile) + n * tile,
{
    assert(t < w * n + n) by (nonlinear_arith)
        requires
            tile > 0,
            t * tile < w * (n * tile) + n * tile,
    ;
    assert(t * tile + tile <= w * (n * tile) + n * tile) by (nonlinear_arith)
        requires
            tile > 0,
            t + 1 <= w * n + n,
    ;
}

/// A tiled source is read by its tiles, and a compressed one of a single strip by windows of
/// it. Everything else, and whatever is cut out of a source, is read by rows of output tiles.
pub proof fn law_full_size_image_is_read_as_stored(
    source: SourceInfo,
    tile_size: int,
    window: Option<WriteWindow>,
)
    ensures
        window is Some ==> base_path(source, tile_size, window) is RowGroups,
        window is None && source.base().tiled ==> base_path(
            source,
            tile_size,
            window,
        ) is SourceTiles,
        base_path(source, tile_size, window) is SourceTiles ==> source.base().tiled,
        base_path(source, tile_size, window) matches BaseLayerPath::StripWindows {
            rows_per_strip,
        } ==> {
            &&& !source.base().tiled
            &&& rows_per_strip == source.base().rows_per_strip || rows_per_strip == 1
            &&& rows_per_strip >= source.base().height
            &&& rows_per_strip > tile_size
            &&& !(compression_in(source.base()) is Uncompressed)
        },
        window is None && !source.base().tiled && source.base().rows_per_strip
            >= source.base().height && source.base().rows_per_strip > tile_size && tile_size >= 1
            && !(compression_in(source.base()) is Uncompressed) ==> base_path(
            source,
            tile_size,
            window,
        ) is StripWindows,
{
}

/// Rows that are decoded at once never reach beyond a strip, hold at least a row of tiles
/// unless the strip is smaller, and otherwise whole rows of tiles.
pub proof fn law_decoded_rows_hold_tiles(rows_per_strip: int, tile_size: int)
    requires
        0 < tile_size,
        0 < rows_per_strip,
        tile_size * STRIP_DECODE_TILE_ROWS <= usize::MAX,
    ensures
        ({
            let rows = decode_rows(rows_per_strip, tile_size);
            &&& 0 < rows <= rows_per_strip
            &&& rows == rows_per_strip || rows >= tile_size
            &&& rows == rows_per_strip || rows % tile_size == 0
        }),
{
    if rows_per_strip > tile_size * STRIP_DECODE_TILE_ROWS {
        vstd::arithmetic::div_mod::lemma_mod_multiples_basic(
            STRIP_DECODE_TILE_ROWS as int,
            tile_size,
        );
        assert(STRIP_DECODE_TILE_ROWS * tile_size == tile_size * STRIP_DECODE_TILE_ROWS)
            by (nonlinear_arith);
    }
}

} // verus!
