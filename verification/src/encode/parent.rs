//! Reducing an overview from the decoded tiles of the one before it.
use crate::cog::grid::TileJob;
use crate::cog::options::ResamplingChoice;
use crate::encode::regions::{
    copy_tile_region_2d, copy_tile_region_3d, is_block_mean, is_reduced_tile,
    law_reduced_pixel_is_first_of_block, law_reduced_pixel_is_mean_of_block,
    lemma_block_lies_in_area, lemma_block_means_move, lemma_block_place, reduce_tile, tile_covers,
    Region,
};
use crate::encode::sample_bytes::RawSample;
use crate::encode::tile_cache::{DecodedTileSpool, TileCacheError};
use crate::encode::tiles::{StripTile, TileView};
use crate::raster::{build2, build3, sample2, sample3, Grid2, Grid3};
use crate::resample::{integral_method, MeanSample};
use vstd::arithmetic::div_mod::{lemma_fundamental_div_mod, lemma_fundamental_div_mod_converse};
use vstd::prelude::*;

verus! {

/// The pixels of the parent that a tile is reduced from.
pub open spec fn parent_region(job: TileJob, downsample: int) -> Region {
    Region {
        col: (job.col_off * downsample) as usize,
        row: (job.row_off * downsample) as usize,
        cols: (job.cols * downsample) as usize,
        rows: (job.rows * downsample) as usize,
    }
}

/// The pixels of the parent can be addressed, and a tile further on.
pub open spec fn parent_region_fits(job: TileJob, downsample: int, tile_size: int) -> bool {
    &&& job.col_off * downsample + job.cols * downsample + tile_size <= usize::MAX
    &&& job.row_off * downsample + job.rows * downsample + tile_size <= usize::MAX
    &&& 0 <= job.col_off * downsample
    &&& 0 <= job.cols * downsample
    &&& 0 <= job.row_off * downsample
    &&& 0 <= job.rows * downsample
}

/// Where the tile starts that holds a row or column.
pub open spec fn tile_start(at: int, tile_size: int) -> int {
    at / tile_size * tile_size
}

/// A sample of the parent: that of the kept tile which holds the pixel, zero where there
/// is none.
pub open spec fn parent_sample<T: RawSample>(
    parent: DecodedTileSpool<T>,
    tile_size: int,
    row: int,
    col: int,
    band: int,
) -> T {
    let top = tile_start(row, tile_size);
    let left = tile_start(col, tile_size);
    match parent.lookup(left as usize, top as usize) {
        Ok(Some(tile)) => if row - top < tile.rows && col - left < tile.cols && band < tile.bands {
            sample3(tile.samples, tile.cols as int, tile.bands as int, row - top, col - left, band)
        } else {
            T::zero()
        },
        _ => T::zero(),
    }
}

/// Kept tiles are no larger than a tile of the grid and have no more than these bands.
pub open spec fn tiles_fit<T: RawSample>(
    parent: DecodedTileSpool<T>,
    tile_size: int,
    bands: int,
) -> bool {
    forall|col: usize, row: usize|
        #[trigger] parent.lookup(col, row) matches Ok(Some(tile)) ==> tile.rows <= tile_size
            && tile.cols <= tile_size && tile.bands <= bands
}

/// Why a kept tile cannot be used, if so: it cannot be read, or it has several bands
/// where one is expected or the other way round.
pub open spec fn tile_problem<T: RawSample>(
    parent: DecodedTileSpool<T>,
    col: usize,
    row: usize,
    single: bool,
) -> Option<TileCacheError> {
    match parent.lookup(col, row) {
        Err(error) => Some(error),
        Ok(Some(tile)) => if tile.multi == single {
            Some(TileCacheError::UnexpectedBandLayout)
        } else {
            None
        },
        Ok(None) => None,
    }
}

/// Whether a tile of the grid overlaps the columns and rows of a region.
pub open spec fn is_needed(region: Region, tile_size: int, col: int, row: int) -> bool {
    &&& col % tile_size == 0
    &&& row % tile_size == 0
    &&& tile_start(region.col as int, tile_size) <= col < region.col + region.cols
    &&& tile_start(region.row as int, tile_size) <= row < region.row + region.rows
}

/// Whether all tiles that a region needs can be used.
pub open spec fn all_usable<T: RawSample>(
    parent: DecodedTileSpool<T>,
    region: Region,
    tile_size: int,
    single: bool,
) -> bool {
    forall|col: usize, row: usize|
        is_needed(region, tile_size, col as int, row as int) ==> (#[trigger] tile_problem(
            parent,
            col,
            row,
            single,
        )) is None
}

/// Whether `error` is that of a tile which a region needs.
pub open spec fn is_tile_error<T: RawSample>(
    parent: DecodedTileSpool<T>,
    region: Region,
    tile_size: int,
    single: bool,
    error: TileCacheError,
) -> bool {
    exists|col: usize, row: usize|
        is_needed(region, tile_size, col as int, row as int) && #[trigger] tile_problem(
            parent,
            col,
            row,
            single,
        ) == Some(error)
}

proof fn lemma_tile_start(at: int, tile_size: int, start: int)
    requires
        tile_size > 0,
        start % tile_size == 0,
        0 <= start <= at < start + tile_size,
    ensures
        tile_start(at, tile_size) == start,
{
    lemma_fundamental_div_mod(start, tile_size);
    let k = start / tile_size;
    assert(start == k * tile_size) by (nonlinear_arith)
        requires
            start == tile_size * k,
    ;
    lemma_fundamental_div_mod_converse(at, tile_size, k, at - start);
}

proof fn lemma_start_bounds(at: int, tile_size: int)
    requires
        tile_size > 0,
        0 <= at,
    ensures
        0 <= tile_start(at, tile_size) <= at < tile_start(at, tile_size) + tile_size,
        tile_start(at, tile_size) % tile_size == 0,
{
    lemma_fundamental_div_mod(at, tile_size);
    let k = at / tile_size;
    assert(tile_size * k == k * tile_size) by (nonlinear_arith);
    assert(k >= 0) by (nonlinear_arith)
        requires
            at == k * tile_size + at % tile_size,
            0 <= at,
            0 <= at % tile_size < tile_size,
    ;
    assert(k * tile_size >= 0) by (nonlinear_arith)
        requires
            k >= 0,
            tile_size > 0,
    ;
    lemma_fundamental_div_mod_converse(k * tile_size, tile_size, k, 0);
}

proof fn lemma_next_start(start: int, tile_size: int)
    requires
        tile_size > 0,
        0 <= start,
        start % tile_size == 0,
    ensures
        (start + tile_size) % tile_size == 0,
{
    lemma_fundamental_div_mod(start, tile_size);
    let k = start / tile_size;
    assert(start + tile_size == (k + 1) * tile_size) by (nonlinear_arith)
        requires
            start == tile_size * k,
    ;
    lemma_fundamental_div_mod_converse(start + tile_size, tile_size, k + 1, 0);
}

/// No multiple of the tile size lies strictly between two neighbors.
proof fn lemma_no_start_between(start: int, other: int, tile_size: int)
    requires
        tile_size > 0,
        0 <= start,
        0 <= other,
        start % tile_size == 0,
        other % tile_size == 0,
        other < start + tile_size,
    ensures
        other <= start,
{
    lemma_fundamental_div_mod(start, tile_size);
    lemma_fundamental_div_mod(other, tile_size);
    let a = start / tile_size;
    let b = other / tile_size;
    assert(b <= a) by (nonlinear_arith)
        requires
            tile_size > 0,
            tile_size * b < tile_size * a + tile_size,
    ;
    assert(tile_size * b <= tile_size * a) by (nonlinear_arith)
        requires
            b <= a,
            tile_size > 0,
    ;
}

/// The step from one tile to the next, or to the end.
fn next_start(start: usize, tile_size: usize, end: usize) -> (next: usize)
    requires
        start < end,
        end + tile_size <= usize::MAX,
    ensures
        next == (if start + tile_size < end {
            start + tile_size
        } else {
            end as int
        }),
{
    if start + tile_size < end {
        start + tile_size
    } else {
        end
    }
}

/// Whether the tile of a column has been visited: it lies before `col`, or at `col` with
/// the tile of the row before `row`.
pub open spec fn visited(tile_col: int, tile_row: int, col: int, row: int) -> bool {
    tile_col < col || (tile_col == col && tile_row < row)
}

/// Puts the kept tiles of one band together that a region needs.
#[verifier::rlimit(40)]
pub fn stitch_single<T: RawSample>(
    parent: &DecodedTileSpool<T>,
    region: Region,
    tile_size: usize,
) -> (result: Result<Grid2<T>, TileCacheError>)
    requires
        parent.well_formed(),
        tile_size > 0,
        tiles_fit(*parent, tile_size as int, 1),
        region.col + region.cols + tile_size <= usize::MAX,
        region.row + region.rows + tile_size <= usize::MAX,
        region.rows * region.cols <= usize::MAX,
    ensures
        match result {
            Ok(canvas) => {
                &&& all_usable(*parent, region, tile_size as int, true)
                &&& canvas.well_formed()
                &&& canvas.rows == region.rows
                &&& canvas.cols == region.cols
                &&& forall|r: int, c: int|
                    canvas.has(r, c) ==> #[trigger] canvas.at(r, c) == parent_sample(
                        *parent,
                        tile_size as int,
                        region.row + r,
                        region.col + c,
                        0,
                    )
            },
            Err(error) => is_tile_error(*parent, region, tile_size as int, true, error),
        },
{
    let ghost given = *parent;
    let ghost ts = tile_size as int;
    let rows: usize = region.rows;
    let cols: usize = region.cols;
    let blank = |r: usize, c: usize| -> (value: T)
        ensures
            value == T::zero(),
        { T::zero_sample() };
    let samples: Vec<T> = build2(rows, cols, blank);
    let mut canvas: Grid2<T> = Grid2 { rows, cols, samples };
    let col_end: usize = region.col + region.cols;
    let row_end: usize = region.row + region.rows;
    proof {
        lemma_start_bounds(region.col as int, ts);
        lemma_start_bounds(region.row as int, ts);
        assert forall|r: int, c: int| canvas.has(r, c) implies #[trigger] canvas.at(r, c)
            == T::zero() && tile_start(region.col as int, ts) <= tile_start(region.col + c, ts) by {
            assert(sample2(canvas.samples@, cols as int, r, c) == T::zero());
            lemma_row_start(region.col as int, c, ts);
        }
    }
    let first_col: usize = region.col / tile_size * tile_size;
    let first_row: usize = region.row / tile_size * tile_size;
    let mut col: usize = first_col;
    while col < col_end
        invariant
            parent.well_formed(),
            given.well_formed(),
            given == *parent,
            ts == tile_size > 0,
            tiles_fit(given, ts, 1),
            col_end == region.col + region.cols,
            row_end == region.row + region.rows,
            col_end + tile_size <= usize::MAX,
            row_end + tile_size <= usize::MAX,
            first_col == tile_start(region.col as int, ts),
            first_row == tile_start(region.row as int, ts),
            first_row % tile_size == 0,
            first_row <= region.row,
            first_col <= col,
            first_col <= region.col < first_col + tile_size,
            first_row <= region.row < first_row + tile_size,
            col < col_end ==> col as int % ts == 0,
            canvas.well_formed(),
            canvas.rows == region.rows,
            canvas.cols == region.cols,
            forall|c: usize, r: usize|
                is_needed(region, ts, c as int, r as int) && c < col ==> (#[trigger] tile_problem(
                    given,
                    c,
                    r,
                    true,
                )) is None,
            forall|r: int, c: int|
                canvas.has(r, c) ==> #[trigger] canvas.at(r, c) == (if tile_start(
                    region.col + c,
                    ts,
                ) < col {
                    parent_sample(given, ts, region.row + r, region.col + c, 0)
                } else {
                    T::zero()
                }),
        decreases col_end - col,
    {
        let mut row: usize = first_row;
        proof {
            assert forall|r: int, c: int| canvas.has(r, c) implies #[trigger] canvas.at(r, c) == (
            if visited(
                tile_start(region.col + c, ts),
                tile_start(region.row + r, ts),
                col as int,
                row as int,
            ) {
                parent_sample(given, ts, region.row + r, region.col + c, 0)
            } else {
                T::zero()
            }) by {
                lemma_row_start(region.row as int, r, ts);
            }
        }
        while row < row_end
            invariant
                parent.well_formed(),
                given.well_formed(),
                given == *parent,
                ts == tile_size > 0,
                tiles_fit(given, ts, 1),
                col_end == region.col + region.cols,
                row_end == region.row + region.rows,
                col_end + tile_size <= usize::MAX,
                row_end + tile_size <= usize::MAX,
                first_col == tile_start(region.col as int, ts),
                first_row == tile_start(region.row as int, ts),
                first_col <= col < col_end,
                col as int % ts == 0,
                first_row <= row,
                row < row_end ==> row as int % ts == 0,
                canvas.well_formed(),
                canvas.rows == region.rows,
                canvas.cols == region.cols,
                forall|c: usize, r: usize|
                    is_needed(region, ts, c as int, r as int) && visited(
                        c as int,
                        r as int,
                        col as int,
                        row as int,
                    ) ==> (#[trigger] tile_problem(given, c, r, true)) is None,
                forall|r: int, c: int|
                    canvas.has(r, c) ==> #[trigger] canvas.at(r, c) == (if visited(
                        tile_start(region.col + c, ts),
                        tile_start(region.row + r, ts),
                        col as int,
                        row as int,
                    ) {
                        parent_sample(given, ts, region.row + r, region.col + c, 0)
                    } else {
                        T::zero()
                    }),
            decreases row_end - row,
        {
            let ghost before = canvas;
            assert(is_needed(region, ts, col as int, row as int));
            match parent.try_get(col, row) {
                Err(error) => {
                    assert(tile_problem(given, col, row, true) == Some(error));
                    return Err(error);
                },
                Ok(None) => {
                    proof {
                        assert(given.lookup(col, row) == Ok::<Option<TileView<T>>, TileCacheError>(
                            None,
                        ));
                        assert forall|r: int, c: int| canvas.has(r, c) && tile_start(
                            region.col + c,
                            ts,
                        ) == col && tile_start(region.row + r, ts) == row implies #[trigger]
                        parent_sample(given, ts, region.row + r, region.col + c, 0) == T::zero() by {}
                    }
                },
                Ok(Some(tile)) => match tile {
                    StripTile::Multi(data) => {
                        assert(tile_problem(given, col, row, true) == Some(
                            TileCacheError::UnexpectedBandLayout,
                        ));
                        return Err(TileCacheError::UnexpectedBandLayout);
                    },
                    StripTile::Single(data) => {
                        proof {
                            assert(given.lookup(col, row) == Ok::<
                                Option<TileView<T>>,
                                TileCacheError,
                            >(Some(StripTile::Single(data)@)));
                        }
                        copy_tile_region_2d(&data, &mut canvas, col, row, region);
                        proof {
                            assert forall|r: int, c: int| canvas.has(r, c) implies #[trigger] canvas.at(
                                r,
                                c,
                            ) == (if tile_start(region.col + c, ts) == col && tile_start(
                                region.row + r,
                                ts,
                            ) == row {
                                parent_sample(given, ts, region.row + r, region.col + c, 0)
                            } else {
                                before.at(r, c)
                            }) by {
                                assert(before.has(r, c));
                                lemma_single_cell(given, data, ts, region, col, row, r, c);
                            }
                        }
                    },
                },
            }
            let next: usize = next_start(row, tile_size, row_end);
            proof {
                lemma_next_start(row as int, ts);
                assert forall|c: usize, r: usize|
                    is_needed(region, ts, c as int, r as int) && visited(
                        c as int,
                        r as int,
                        col as int,
                        next as int,
                    ) implies (#[trigger] tile_problem(given, c, r, true)) is None by {
                    if c == col && r >= row {
                        lemma_no_start_between(row as int, r as int, ts);
                        assert(r == row);
                    }
                }
                assert forall|r: int, c: int| canvas.has(r, c) implies #[trigger] canvas.at(r, c)
                    == (if visited(
                    tile_start(region.col + c, ts),
                    tile_start(region.row + r, ts),
                    col as int,
                    next as int,
                ) {
                    parent_sample(given, ts, region.row + r, region.col + c, 0)
                } else {
                    T::zero()
                }) by {
                    assert(before.has(r, c));
                    let top = tile_start(region.row + r, ts);
                    lemma_start_bounds(region.row + r, ts);
                    if row < top < next {
                        lemma_no_start_between(row as int, top, ts);
                    }
                    if tile_start(region.col + c, ts) == col && top == row {
                        let value = parent_sample(given, ts, region.row + r, region.col + c, 0);
                        assert(before.at(r, c) == T::zero());
                    }
                }
            }
            row = next;
        }
        let next: usize = next_start(col, tile_size, col_end);
        proof {
            lemma_next_start(col as int, ts);
            assert forall|c: usize, r: usize|
                is_needed(region, ts, c as int, r as int) && c < next implies (#[trigger] tile_problem(
                given,
                c,
                r,
                true,
            )) is None by {
                if c >= col {
                    lemma_no_start_between(col as int, c as int, ts);
                    assert(visited(c as int, r as int, col as int, row as int));
                }
            }
            assert forall|r: int, c: int| canvas.has(r, c) implies #[trigger] canvas.at(r, c) == (
            if tile_start(region.col + c, ts) < next {
                parent_sample(given, ts, region.row + r, region.col + c, 0)
            } else {
                T::zero()
            }) by {
                let left = tile_start(region.col + c, ts);
                lemma_start_bounds(region.col + c, ts);
                lemma_start_bounds(region.row + r, ts);
                if col < left < next {
                    lemma_no_start_between(col as int, left, ts);
                }
            }
        }
        col = next;
    }
    proof {
        assert forall|r: int, c: int| canvas.has(r, c) implies #[trigger] canvas.at(r, c)
            == parent_sample(given, ts, region.row + r, region.col + c, 0) by {
            lemma_start_bounds(region.col + c, ts);
        }
    }
    Ok(canvas)
}

proof fn lemma_row_start(start: int, offset: int, ts: int)
    requires
        ts > 0,
        0 <= start,
        0 <= offset,
    ensures
        tile_start(start, ts) <= tile_start(start + offset, ts),
{
    lemma_start_bounds(start, ts);
    lemma_start_bounds(start + offset, ts);
    lemma_no_start_between(tile_start(start + offset, ts), tile_start(start, ts), ts);
}

proof fn lemma_single_cell<T: RawSample>(
    given: DecodedTileSpool<T>,
    data: Grid2<T>,
    ts: int,
    region: Region,
    col: usize,
    row: usize,
    r: int,
    c: int,
)
    requires
        ts > 0,
        col as int % ts == 0,
        row as int % ts == 0,
        0 <= r < region.rows,
        0 <= c < region.cols,
        tiles_fit(given, ts, 1),
        given.lookup(col, row) == Ok::<Option<TileView<T>>, TileCacheError>(
            Some(StripTile::Single(data)@),
        ),
    ensures
        tile_covers(
            data.rows as int,
            data.cols as int,
            row as int,
            col as int,
            region,
            r,
            c,
        ) ==> {
            &&& tile_start(region.col + c, ts) == col
            &&& tile_start(region.row + r, ts) == row
            &&& parent_sample(given, ts, region.row + r, region.col + c, 0) == data.at(
                region.row + r - row,
                region.col + c - col,
            )
        },
        !tile_covers(
            data.rows as int,
            data.cols as int,
            row as int,
            col as int,
            region,
            r,
            c,
        ) && tile_start(region.col + c, ts) == col && tile_start(region.row + r, ts) == row
            ==> parent_sample(given, ts, region.row + r, region.col + c, 0) == T::zero(),
{
    let tile = StripTile::Single(data)@;
    assert(tile.rows <= ts && tile.cols <= ts);
    lemma_start_bounds(region.col + c, ts);
    lemma_start_bounds(region.row + r, ts);
    if tile_covers(data.rows as int, data.cols as int, row as int, col as int, region, r, c) {
        lemma_tile_start(region.col + c, ts, col as int);
        lemma_tile_start(region.row + r, ts, row as int);
        let dr = region.row + r - row;
        let dc = region.col + c - col;
        assert((dr * data.cols + dc) * 1 + 0 == dr * data.cols + dc) by (nonlinear_arith);
        assert(sample3(tile.samples, data.cols as int, 1, dr, dc, 0) == sample2(
            data.samples@,
            data.cols as int,
            dr,
            dc,
        ));
    }
}

/// Puts the kept tiles of several bands together that a region needs.
#[verifier::rlimit(40)]
pub fn stitch_multi<T: RawSample>(
    parent: &DecodedTileSpool<T>,
    region: Region,
    tile_size: usize,
    bands: usize,
) -> (result: Result<Grid3<T>, TileCacheError>)
    requires
        parent.well_formed(),
        tile_size > 0,
        tiles_fit(*parent, tile_size as int, bands as int),
        region.col + region.cols + tile_size <= usize::MAX,
        region.row + region.rows + tile_size <= usize::MAX,
        region.rows * region.cols * bands <= usize::MAX,
    ensures
        match result {
            Ok(canvas) => {
                &&& all_usable(*parent, region, tile_size as int, false)
                &&& canvas.well_formed()
                &&& canvas.rows == region.rows
                &&& canvas.cols == region.cols
                &&& canvas.bands == bands
                &&& forall|r: int, c: int, b: int|
                    canvas.has(r, c, b) ==> #[trigger] canvas.at(r, c, b) == parent_sample(
                        *parent,
                        tile_size as int,
                        region.row + r,
                        region.col + c,
                        b,
                    )
            },
            Err(error) => is_tile_error(*parent, region, tile_size as int, false, error),
        },
{
    let ghost given = *parent;
    let ghost ts = tile_size as int;
    let rows: usize = region.rows;
    let cols: usize = region.cols;
    let blank = |r: usize, c: usize, b: usize| -> (value: T)
        ensures
            value == T::zero(),
        { T::zero_sample() };
    let samples: Vec<T> = build3(rows, cols, bands, blank);
    let mut canvas: Grid3<T> = Grid3 { rows, cols, bands, samples };
    let col_end: usize = region.col + region.cols;
    let row_end: usize = region.row + region.rows;
    proof {
        lemma_start_bounds(region.col as int, ts);
        lemma_start_bounds(region.row as int, ts);
        assert forall|r: int, c: int, b: int| canvas.has(r, c, b) implies #[trigger] canvas.at(r, c, b)
            == T::zero() && tile_start(region.col as int, ts) <= tile_start(region.col + c, ts) by {
            assert(sample3(canvas.samples@, cols as int, bands as int, r, c, b) == T::zero());
            lemma_row_start(region.col as int, c, ts);
        }
    }
    let first_col: usize = region.col / tile_size * tile_size;
    let first_row: usize = region.row / tile_size * tile_size;
    let mut col: usize = first_col;
    while col < col_end
        invariant
            parent.well_formed(),
            given.well_formed(),
            given == *parent,
            ts == tile_size > 0,
            tiles_fit(given, ts, bands as int),
            col_end == region.col + region.cols,
            row_end == region.row + region.rows,
            col_end + tile_size <= usize::MAX,
            row_end + tile_size <= usize::MAX,
            first_col == tile_start(region.col as int, ts),
            first_row == tile_start(region.row as int, ts),
            first_row % tile_size == 0,
            first_row <= region.row,
            first_col <= col,
            first_col <= region.col < first_col + tile_size,
            first_row <= region.row < first_row + tile_size,
            col < col_end ==> col as int % ts == 0,
            canvas.well_formed(),
            canvas.rows == region.rows,
            canvas.cols == region.cols,
            canvas.bands == bands,
            forall|c: usize, r: usize|
                is_needed(region, ts, c as int, r as int) && c < col ==> (#[trigger] tile_problem(
                    given,
                    c,
                    r,
                    false,
                )) is None,
            forall|r: int, c: int, b: int|
                canvas.has(r, c, b) ==> #[trigger] canvas.at(r, c, b) == (if tile_start(
                    region.col + c,
                    ts,
                ) < col {
                    parent_sample(given, ts, region.row + r, region.col + c, b)
                } else {
                    T::zero()
                }),
        decreases col_end - col,
    {
        let mut row: usize = first_row;
        proof {
            assert forall|r: int, c: int, b: int| canvas.has(r, c, b) implies #[trigger] canvas.at(r, c, b) == (
            if visited(
                tile_start(region.col + c, ts),
                tile_start(region.row + r, ts),
                col as int,
                row as int,
            ) {
                parent_sample(given, ts, region.row + r, region.col + c, b)
            } else {
                T::zero()
            }) by {
                lemma_row_start(region.row as int, r, ts);
            }
        }
        while row < row_end
            invariant
                parent.well_formed(),
                given.well_formed(),
                given == *parent,
                ts == tile_size > 0,
                tiles_fit(given, ts, bands as int),
                col_end == region.col + region.cols,
                row_end == region.row + region.rows,
                col_end + tile_size <= usize::MAX,
                row_end + tile_size <= usize::MAX,
                first_col == tile_start(region.col as int, ts),
                first_row == tile_start(region.row as int, ts),
                first_col <= col < col_end,
                col as int % ts == 0,
                first_row <= row,
                row < row_end ==> row as int % ts == 0,
                canvas.well_formed(),
                canvas.rows == region.rows,
                canvas.cols == region.cols,
                canvas.bands == bands,
                forall|c: usize, r: usize|
                    is_needed(region, ts, c as int, r as int) && visited(
                        c as int,
                        r as int,
                        col as int,
                        row as int,
                    ) ==> (#[trigger] tile_problem(given, c, r, false)) is None,
                forall|r: int, c: int, b: int|
                    canvas.has(r, c, b) ==> #[trigger] canvas.at(r, c, b) == (if visited(
                        tile_start(region.col + c, ts),
                        tile_start(region.row + r, ts),
                        col as int,
                        row as int,
                    ) {
                        parent_sample(given, ts, region.row + r, region.col + c, b)
                    } else {
                        T::zero()
                    }),
            decreases row_end - row,
        {
            let ghost before = canvas;
            assert(is_needed(region, ts, col as int, row as int));
            match parent.try_get(col, row) {
                Err(error) => {
                    assert(tile_problem(given, col, row, false) == Some(error));
                    return Err(error);
                },
                Ok(None) => {
                    proof {
                        assert(given.lookup(col, row) == Ok::<Option<TileView<T>>, TileCacheError>(
                            None,
                        ));
                        assert forall|r: int, c: int, b: int| canvas.has(r, c, b) && tile_start(
                            region.col + c,
                            ts,
                        ) == col && tile_start(region.row + r, ts) == row implies #[trigger]
                        parent_sample(given, ts, region.row + r, region.col + c, b) == T::zero() by {}
                    }
                },
                Ok(Some(tile)) => match tile {
                    StripTile::Single(data) => {
                        assert(tile_problem(given, col, row, false) == Some(
                            TileCacheError::UnexpectedBandLayout,
                        ));
                        return Err(TileCacheError::UnexpectedBandLayout);
                    },
                    StripTile::Multi(data) => {
                        proof {
                            assert(given.lookup(col, row) == Ok::<
                                Option<TileView<T>>,
                                TileCacheError,
                            >(Some(StripTile::Multi(data)@)));
                        }
                        copy_tile_region_3d(&data, &mut canvas, col, row, region);
                        proof {
                            assert forall|r: int, c: int, b: int| canvas.has(r, c, b) implies #[trigger] canvas.at(
                                r,
                                c,
                                b,
                            ) == (if tile_start(region.col + c, ts) == col && tile_start(
                                region.row + r,
                                ts,
                            ) == row {
                                parent_sample(given, ts, region.row + r, region.col + c, b)
                            } else {
                                before.at(r, c, b)
                            }) by {
                                assert(before.has(r, c, b));
                                lemma_multi_cell(given, data, ts, region, bands as int, col, row, r, c, b);
                            }
                        }
                    },
                },
            }
            let next: usize = next_start(row, tile_size, row_end);
            proof {
                lemma_next_start(row as int, ts);
                assert forall|c: usize, r: usize|
                    is_needed(region, ts, c as int, r as int) && visited(
                        c as int,
                        r as int,
                        col as int,
                        next as int,
                    ) implies (#[trigger] tile_problem(given, c, r, false)) is None by {
                    if c == col && r >= row {
                        lemma_no_start_between(row as int, r as int, ts);
                        assert(r == row);
                    }
                }
                assert forall|r: int, c: int, b: int| canvas.has(r, c, b) implies #[trigger] canvas.at(r, c, b)
                    == (if visited(
                    tile_start(region.col + c, ts),
                    tile_start(region.row + r, ts),
                    col as int,
                    next as int,
                ) {
                    parent_sample(given, ts, region.row + r, region.col + c, b)
                } else {
                    T::zero()
                }) by {
                    assert(before.has(r, c, b));
                    let top = tile_start(region.row + r, ts);
                    lemma_start_bounds(region.row + r, ts);
                    if row < top < next {
                        lemma_no_start_between(row as int, top, ts);
                    }
                    if tile_start(region.col + c, ts) == col && top == row {
                        let value = parent_sample(given, ts, region.row + r, region.col + c, b);
                        assert(before.at(r, c, b) == T::zero());
                    }
                }
            }
            row = next;
        }
        let next: usize = next_start(col, tile_size, col_end);
        proof {
            lemma_next_start(col as int, ts);
            assert forall|c: usize, r: usize|
                is_needed(region, ts, c as int, r as int) && c < next implies (#[trigger] tile_problem(
                given,
                c,
                r,
                false,
            )) is None by {
                if c >= col {
                    lemma_no_start_between(col as int, c as int, ts);
                    assert(visited(c as int, r as int, col as int, row as int));
                }
            }
            assert forall|r: int, c: int, b: int| canvas.has(r, c, b) implies #[trigger] canvas.at(r, c, b) == (
            if tile_start(region.col + c, ts) < next {
                parent_sample(given, ts, region.row + r, region.col + c, b)
            } else {
                T::zero()
            }) by {
                let left = tile_start(region.col + c, ts);
                lemma_start_bounds(region.col + c, ts);
                lemma_start_bounds(region.row + r, ts);
                if col < left < next {
                    lemma_no_start_between(col as int, left, ts);
                }
            }
        }
        col = next;
    }
    proof {
        assert forall|r: int, c: int, b: int| canvas.has(r, c, b) implies #[trigger] canvas.at(r, c, b)
            == parent_sample(given, ts, region.row + r, region.col + c, b) by {
            lemma_start_bounds(region.col + c, ts);
        }
    }
    Ok(canvas)
}

proof fn lemma_multi_cell<T: RawSample>(
    given: DecodedTileSpool<T>,
    data: Grid3<T>,
    ts: int,
    region: Region,
    bands: int,
    col: usize,
    row: usize,
    r: int,
    c: int,
    b: int,
)
    requires
        ts > 0,
        col as int % ts == 0,
        row as int % ts == 0,
        0 <= r < region.rows,
        0 <= c < region.cols,
        0 <= b,
        tiles_fit(given, ts, bands),
        given.lookup(col, row) == Ok::<Option<TileView<T>>, TileCacheError>(
            Some(StripTile::Multi(data)@),
        ),
    ensures
        tile_covers(
            data.rows as int,
            data.cols as int,
            row as int,
            col as int,
            region,
            r,
            c,
        ) ==> {
            &&& tile_start(region.col + c, ts) == col
            &&& tile_start(region.row + r, ts) == row
            &&& parent_sample(given, ts, region.row + r, region.col + c, b) == (if b < data.bands {
                data.at(region.row + r - row, region.col + c - col, b)
            } else {
                T::zero()
            })
        },
        !tile_covers(
            data.rows as int,
            data.cols as int,
            row as int,
            col as int,
            region,
            r,
            c,
        ) && tile_start(region.col + c, ts) == col && tile_start(region.row + r, ts) == row
            ==> parent_sample(given, ts, region.row + r, region.col + c, b) == T::zero(),
{
    let tile = StripTile::Multi(data)@;
    assert(tile.rows <= ts && tile.cols <= ts);
    lemma_start_bounds(region.col + c, ts);
    lemma_start_bounds(region.row + r, ts);
    if tile_covers(data.rows as int, data.cols as int, row as int, col as int, region, r, c) {
        lemma_tile_start(region.col + c, ts, col as int);
        lemma_tile_start(region.row + r, ts, row as int);
    }
}

/// The tile of an overview that is reduced from the tiles of the one before it: the
/// pixels of the parent, put together.
pub open spec fn is_stitched<T: RawSample>(
    parent: DecodedTileSpool<T>,
    region: Region,
    tile_size: int,
    bands: int,
    canvas: StripTile<T>,
) -> bool {
    &&& canvas.well_formed()
    &&& canvas is Single <==> bands == 1
    &&& canvas.row_count() == region.rows
    &&& canvas.col_count() == region.cols
    &&& canvas.band_count() == bands
    &&& forall|r: int, c: int, b: int|
        canvas.has(r, c, b) ==> #[trigger] canvas.at(r, c, b) == parent_sample(
            parent,
            tile_size,
            region.row + r,
            region.col + c,
            b,
        )
}

/// Puts the kept tiles together that a tile of an overview is reduced from.
pub fn stitch_parent_tile<T: RawSample>(
    parent: &DecodedTileSpool<T>,
    job: &TileJob,
    downsample: usize,
    out_bands: usize,
    tile_size: usize,
) -> (result: Result<StripTile<T>, TileCacheError>)
    requires
        parent.well_formed(),
        tile_size > 0,
        tiles_fit(*parent, tile_size as int, out_bands as int),
        parent_region_fits(*job, downsample as int, tile_size as int),
        (job.rows * downsample) * (job.cols * downsample) <= usize::MAX,
        (job.rows * downsample) * (job.cols * downsample) * out_bands <= usize::MAX,
    ensures
        match result {
            Ok(canvas) => {
                &&& all_usable(
                    *parent,
                    parent_region(*job, downsample as int),
                    tile_size as int,
                    out_bands == 1,
                )
                &&& is_stitched(
                    *parent,
                    parent_region(*job, downsample as int),
                    tile_size as int,
                    out_bands as int,
                    canvas,
                )
            },
            Err(error) => is_tile_error(
                *parent,
                parent_region(*job, downsample as int),
                tile_size as int,
                out_bands == 1,
                error,
            ),
        },
{
    let region = Region {
        col: job.col_off * downsample,
        row: job.row_off * downsample,
        cols: job.cols * downsample,
        rows: job.rows * downsample,
    };
    if out_bands == 1 {
        match stitch_single(parent, region, tile_size) {
            Err(error) => Err(error),
            Ok(canvas) => {
                let tile = StripTile::Single(canvas);
                proof {
                    assert forall|r: int, c: int, b: int| tile.has(r, c, b) implies #[trigger] tile.at(
                        r,
                        c,
                        b,
                    ) == parent_sample(
                        *parent,
                        tile_size as int,
                        region.row + r,
                        region.col + c,
                        b,
                    ) by {
                        assert(canvas.has(r, c));
                    }
                }
                Ok(tile)
            },
        }
    } else {
        match stitch_multi(parent, region, tile_size, out_bands) {
            Err(error) => Err(error),
            Ok(canvas) => {
                let tile = StripTile::Multi(canvas);
                proof {
                    assert forall|r: int, c: int, b: int| tile.has(r, c, b) implies #[trigger] tile.at(
                        r,
                        c,
                        b,
                    ) == parent_sample(
                        *parent,
                        tile_size as int,
                        region.row + r,
                        region.col + c,
                        b,
                    ) by {
                        assert(canvas.has(r, c, b));
                    }
                }
                Ok(tile)
            },
        }
    }
}

/// Reduces a tile of an overview from the kept tiles of the one before it; none for a
/// method that weighs samples by fractions.
pub fn downsample_parent_tile<T: RawSample + MeanSample>(
    parent: &DecodedTileSpool<T>,
    job: &TileJob,
    downsample: usize,
    out_bands: usize,
    tile_size: usize,
    method: ResamplingChoice,
    nodata: Option<T>,
) -> (result: Result<Option<StripTile<T>>, TileCacheError>)
    requires
        parent.well_formed(),
        tile_size > 0,
        downsample > 0,
        tiles_fit(*parent, tile_size as int, out_bands as int),
        parent_region_fits(*job, downsample as int, tile_size as int),
        (job.rows * downsample) * (job.cols * downsample) <= usize::MAX,
        (job.rows * downsample) * (job.cols * downsample) * out_bands <= usize::MAX,
    ensures
        match result {
            Ok(reduced) => {
                &&& all_usable(
                    *parent,
                    parent_region(*job, downsample as int),
                    tile_size as int,
                    out_bands == 1,
                )
                &&& reduced is Some <==> integral_method(method)
                &&& reduced matches Some(tile) ==> exists|canvas: StripTile<T>| #[trigger]
                    is_stitched(
                        *parent,
                        parent_region(*job, downsample as int),
                        tile_size as int,
                        out_bands as int,
                        canvas,
                    ) && is_reduced_tile(
                        tile,
                        canvas,
                        job.rows as int,
                        job.cols as int,
                        downsample as int,
                        method,
                        nodata,
                    )
            },
            Err(error) => is_tile_error(
                *parent,
                parent_region(*job, downsample as int),
                tile_size as int,
                out_bands == 1,
                error,
            ),
        },
{
    match stitch_parent_tile(parent, job, downsample, out_bands, tile_size) {
        Err(error) => Err(error),
        Ok(canvas) => {
            proof {
                lemma_smaller(job.rows as int, job.cols as int, downsample as int, out_bands as int);
                lemma_positive(job.rows as int, downsample as int);
                lemma_positive(job.cols as int, downsample as int);
            }
            Ok(reduce_tile(&canvas, job.rows, job.cols, downsample, method, nodata))
        },
    }
}

proof fn lemma_positive(a: int, b: int)
    requires
        0 <= a,
        0 < b,
    ensures
        a > 0 ==> a * b > 0,
{
    assert(a > 0 ==> a * b > 0) by (nonlinear_arith)
        requires
            0 <= a,
            0 < b,
    ;
}

proof fn lemma_smaller(rows: int, cols: int, scale: int, bands: int)
    requires
        0 <= rows,
        0 <= cols,
        0 < scale,
        0 <= bands,
    ensures
        0 <= rows * cols <= (rows * scale) * (cols * scale),
        rows * cols * bands <= (rows * scale) * (cols * scale) * bands,
{
    assert(rows <= rows * scale) by (nonlinear_arith)
        requires
            0 <= rows,
            0 < scale,
    ;
    assert(cols <= cols * scale) by (nonlinear_arith)
        requires
            0 <= cols,
            0 < scale,
    ;
    crate::arith::lemma_mul_bound(rows, cols, rows * scale, cols * scale);
    crate::arith::lemma_mul_bound(
        rows * cols,
        bands,
        (rows * scale) * (cols * scale),
        bands,
    );
}

/// The canvas of a tile shows the parent from `downsample` times the tile's corner on: its
/// pixels are those of the parent that lie as far from there.
pub proof fn law_stitched_canvas_shows_parent<T: RawSample>(
    parent: DecodedTileSpool<T>,
    job: TileJob,
    downsample: int,
    tile_size: int,
    bands: int,
    canvas: StripTile<T>,
    r: int,
    c: int,
    b: int,
)
    requires
        0 < tile_size,
        parent_region_fits(job, downsample, tile_size),
        is_stitched(parent, parent_region(job, downsample), tile_size, bands, canvas),
        0 <= r < job.rows * downsample,
        0 <= c < job.cols * downsample,
        0 <= b < bands,
    ensures
        canvas.row_count() == job.rows * downsample,
        canvas.col_count() == job.cols * downsample,
        canvas.band_count() == bands,
        canvas.at(r, c, b) == parent_sample(
            parent,
            tile_size,
            job.row_off * downsample + r,
            job.col_off * downsample + c,
            b,
        ),
{
    assert(canvas.has(r, c, b));
}

/// A pixel of the parent is the sample of the kept tile that holds it: the tile that starts
/// at the multiples of the tile size before the pixel, counted from the tile's corner.
pub proof fn law_parent_pixel_is_kept_sample<T: RawSample>(
    parent: DecodedTileSpool<T>,
    tile_size: int,
    tile: TileView<T>,
    i: int,
    j: int,
    r: int,
    c: int,
    b: int,
)
    requires
        0 < tile_size,
        0 <= i,
        0 <= j,
        i * tile_size <= usize::MAX,
        j * tile_size <= usize::MAX,
        parent.lookup((j * tile_size) as usize, (i * tile_size) as usize) == Ok::<
            Option<TileView<T>>,
            TileCacheError,
        >(Some(tile)),
        0 <= r < tile.rows <= tile_size,
        0 <= c < tile.cols <= tile_size,
        0 <= b < tile.bands,
    ensures
        parent_sample(parent, tile_size, i * tile_size + r, j * tile_size + c, b)
            == tile.samples[(r * tile.cols + c) * tile.bands + b],
{
    vstd::arithmetic::div_mod::lemma_mod_multiples_basic(i, tile_size);
    vstd::arithmetic::div_mod::lemma_mod_multiples_basic(j, tile_size);
    assert(0 <= i * tile_size && 0 <= j * tile_size) by (nonlinear_arith)
        requires
            0 <= i,
            0 <= j,
            0 < tile_size,
    ;
    lemma_tile_start(i * tile_size + r, tile_size, i * tile_size);
    lemma_tile_start(j * tile_size + c, tile_size, j * tile_size);
}

/// A pixel of an overview that is averaged from the one before it is the mean of exactly the
/// pixels of that one whose row and column, divided by the reduction, are its own.
pub proof fn law_chained_pixel_is_mean_of_parent_block<T: RawSample + MeanSample>(
    parent: DecodedTileSpool<T>,
    job: TileJob,
    downsample: nat,
    tile_size: int,
    bands: int,
    canvas: StripTile<T>,
    tile: StripTile<T>,
    nodata: Option<T>,
    x: int,
    y: int,
    b: int,
)
    requires
        0 < tile_size,
        0 < downsample,
        parent_region_fits(job, downsample as int, tile_size),
        is_stitched(parent, parent_region(job, downsample as int), tile_size, bands, canvas),
        is_reduced_tile(
            tile,
            canvas,
            job.rows as int,
            job.cols as int,
            downsample as int,
            ResamplingChoice::Average,
            nodata,
        ),
        job.col_off <= x < job.col_off + job.cols,
        job.row_off <= y < job.row_off + job.rows,
        0 <= b < bands,
    ensures
        is_block_mean(
            tile.at(y - job.row_off, x - job.col_off, b),
            |r: int, c: int| parent_sample(parent, tile_size, r, c, b),
            |r: int, c: int| true,
            nodata,
            y * downsample,
            x * downsample,
            downsample,
        ),
        forall|r: int, c: int|
            y * downsample <= r < y * downsample + downsample && x * downsample <= c < x
                * downsample + downsample <==> #[trigger] (r / downsample as int) == y
                && #[trigger] (c / downsample as int) == x,
{
    let scale = downsample as int;
    let r = y - job.row_off;
    let c = x - job.col_off;
    assert(tile.has(r, c, b));
    law_reduced_pixel_is_mean_of_block(
        tile,
        canvas,
        job.rows as int,
        job.cols as int,
        downsample,
        nodata,
        r,
        c,
        b,
    );
    lemma_block_lies_in_area(r, job.rows as int, scale);
    lemma_block_lies_in_area(c, job.cols as int, scale);
    lemma_block_place(y, job.row_off as int, scale);
    lemma_block_place(x, job.col_off as int, scale);
    assert forall|i: int, j: int|
        r * scale <= i < r * scale + scale && c * scale <= j < c * scale + scale implies canvas.has(
        i,
        j,
        b,
    ) && #[trigger] canvas.at(i, j, b) == parent_sample(
        parent,
        tile_size,
        i + job.row_off * scale,
        j + job.col_off * scale,
        b,
    ) by {
        law_stitched_canvas_shows_parent(
            parent,
            job,
            scale,
            tile_size,
            bands,
            canvas,
            i,
            j,
            b,
        );
    }
    lemma_block_means_move(
        tile.at(r, c, b),
        |i: int, j: int| canvas.at(i, j, b),
        |i: int, j: int| 0 <= i < canvas.row_count() && 0 <= j < canvas.col_count(),
        |i: int, j: int| parent_sample(parent, tile_size, i, j, b),
        |i: int, j: int| true,
        nodata,
        r * scale,
        c * scale,
        job.row_off * scale,
        job.col_off * scale,
        downsample,
    );
    assert forall|i: int, j: int|
        y * scale <= i < y * scale + scale && x * scale <= j < x * scale + scale
            <==> #[trigger] (i / scale) == y && #[trigger] (j / scale) == x by {
        lemma_block_of(i, scale, y);
        lemma_block_of(j, scale, x);
    }
}

proof fn lemma_block_of(at: int, scale: int, block: int)
    requires
        0 < scale,
    ensures
        block * scale <= at < block * scale + scale <==> at / scale == block,
{
    lemma_fundamental_div_mod(at, scale);
    assert(scale * (at / scale) == (at / scale) * scale) by (nonlinear_arith);
    if block * scale <= at < block * scale + scale {
        lemma_fundamental_div_mod_converse(at, scale, block, at - block * scale);
    }
}

/// A pixel of an overview that takes the nearest sample of the one before it is the pixel of
/// that one whose row and column are its own times the reduction.
pub proof fn law_chained_pixel_is_parent_pixel<T: RawSample + MeanSample>(
    parent: DecodedTileSpool<T>,
    job: TileJob,
    downsample: nat,
    tile_size: int,
    bands: int,
    canvas: StripTile<T>,
    tile: StripTile<T>,
    nodata: Option<T>,
    x: int,
    y: int,
    b: int,
)
    requires
        0 < tile_size,
        0 < downsample,
        parent_region_fits(job, downsample as int, tile_size),
        is_stitched(parent, parent_region(job, downsample as int), tile_size, bands, canvas),
        is_reduced_tile(
            tile,
            canvas,
            job.rows as int,
            job.cols as int,
            downsample as int,
            ResamplingChoice::Nearest,
            nodata,
        ),
        job.col_off <= x < job.col_off + job.cols,
        job.row_off <= y < job.row_off + job.rows,
        0 <= b < bands,
    ensures
        tile.at(y - job.row_off, x - job.col_off, b) == parent_sample(
            parent,
            tile_size,
            y * downsample,
            x * downsample,
            b,
        ),
{
    let scale = downsample as int;
    let r = y - job.row_off;
    let c = x - job.col_off;
    assert(tile.has(r, c, b));
    lemma_block_lies_in_area(r, job.rows as int, scale);
    lemma_block_lies_in_area(c, job.cols as int, scale);
    lemma_block_place(y, job.row_off as int, scale);
    lemma_block_place(x, job.col_off as int, scale);
    law_stitched_canvas_shows_parent(
        parent,
        job,
        scale,
        tile_size,
        bands,
        canvas,
        r * scale,
        c * scale,
        b,
    );
    law_reduced_pixel_is_first_of_block(
        tile,
        canvas,
        job.rows as int,
        job.cols as int,
        downsample,
        nodata,
        r,
        c,
        b,
    );
}

/// Every tile that holds a pixel of a region is needed for it, and each that is needed shares
/// a pixel with it.
pub proof fn law_needed_tiles_hold_pixels_of_the_region(
    region: Region,
    tile_size: int,
    x: int,
    y: int,
)
    requires
        0 < tile_size,
        region.col <= x < region.col + region.cols,
        region.row <= y < region.row + region.rows,
    ensures
        ({
            let col = tile_start(x, tile_size);
            let row = tile_start(y, tile_size);
            &&& col <= x < col + tile_size
            &&& row <= y < row + tile_size
            &&& is_needed(region, tile_size, col, row)
        }),
{
    lemma_start_of_tile(x, tile_size);
    lemma_start_of_tile(y, tile_size);
    lemma_start_of_tile(region.col as int, tile_size);
    lemma_start_of_tile(region.row as int, tile_size);
    lemma_starts_in_order(region.col as int, x, tile_size);
    lemma_starts_in_order(region.row as int, y, tile_size);
}

/// A tile that is needed begins in the region, or holds its first row or column.
pub proof fn law_needed_tiles_reach_the_region(region: Region, tile_size: int, col: int, row: int)
    requires
        0 < tile_size,
        is_needed(region, tile_size, col, row),
    ensures
        region.col < col + tile_size,
        col < region.col + region.cols,
        region.row < row + tile_size,
        row < region.row + region.rows,
{
    lemma_start_of_tile(region.col as int, tile_size);
    lemma_start_of_tile(region.row as int, tile_size);
}

/// A tile that cannot be read, or that has several bands where one is expected or the other
/// way round, cannot be used; one that was never kept can.
pub proof fn law_only_faulty_tiles_are_refused<T: RawSample>(
    parent: DecodedTileSpool<T>,
    col: usize,
    row: usize,
    single: bool,
)
    ensures
        parent.lookup(col, row) matches Err(error) ==> tile_problem(parent, col, row, single)
            == Some(error),
        parent.lookup(col, row) matches Ok(None) ==> tile_problem(
            parent,
            col,
            row,
            single,
        ) is None,
        parent.lookup(col, row) matches Ok(Some(tile)) ==> (tile_problem(
            parent,
            col,
            row,
            single,
        ) is None <==> tile.multi != single),
{
}

proof fn lemma_start_of_tile(at: int, tile_size: int)
    requires
        0 <= at,
        0 < tile_size,
    ensures
        tile_start(at, tile_size) <= at < tile_start(at, tile_size) + tile_size,
        tile_start(at, tile_size) % tile_size == 0,
{
    crate::crop::lemma_share(at, tile_size);
    let q = at / tile_size;
    assert((q + 1) * tile_size == q * tile_size + tile_size) by (nonlinear_arith);
    vstd::arithmetic::div_mod::lemma_mod_multiples_basic(q, tile_size);
}

proof fn lemma_starts_in_order(first: int, second: int, tile_size: int)
    requires
        0 <= first <= second,
        0 < tile_size,
    ensures
        tile_start(first, tile_size) <= tile_start(second, tile_size),
{
    vstd::arithmetic::div_mod::lemma_div_is_ordered(first, second, tile_size);
    let p = first / tile_size;
    let q = second / tile_size;
    assert(p * tile_size <= q * tile_size) by (nonlinear_arith)
        requires
            p <= q,
            0 < tile_size,
    ;
}

} // verus!
