//! Copying tiles into a canvas, cutting tiles out of a read, and reducing them.
use crate::arith::{
    ceil_div, is_next_integer, lemma_grid_index, lemma_mul_bound, lemma_same_area, sum_area,
    sum_line,
};
use crate::bands::{band_seq, bands_exist, bands_positive, first_missing};
use crate::cog::grid::{
    law_tiles_partition_raster, lemma_tile_job_bounds, lemma_tile_of_pixel, tile_grid, tile_job,
    TileJob,
};
use crate::cog::options::ResamplingChoice;
use crate::encode::plan::{
    band_map_usable, column_batch, law_cuts_are_source_windows, law_cuts_lie_within_reads,
    law_layer_cuts_are_at_their_place, layer_corner, lemma_tiles_end, overview_batches, overview_cut, single_band, source_window,
    source_windows_fit, tiles_fit, BatchRead, OverviewSource, SourceRead, TileCut,
};
use crate::encode::tiles::{
    encode_tile_samples, encoded_bands, is_encoded_tile, select_bands, BandError, StripTile,
};
use crate::raster::{sample3, Grid2, Grid3};
use crate::resample::{
    band_reduced, downsample_2d, downsample_3d, integral_method, is_band,
    law_average_is_mean_of_block, law_nearest_is_first_of_block, reduced_sample, MeanSample,
};
use vstd::arithmetic::div_mod::lemma_fundamental_div_mod;
use vstd::prelude::*;

verus! {

/// A rectangle of pixels that a canvas stands for.
#[derive(Debug, Clone, Copy, PartialEq, Eq, Structural)]
pub struct Region {
    pub col: usize,
    pub row: usize,
    pub cols: usize,
    pub rows: usize,
}

impl Region {
    /// The rectangle ends within machine numbers.
    pub open spec fn fits(self) -> bool {
        self.col + self.cols <= usize::MAX && self.row + self.rows <= usize::MAX
    }
}

/// Whether a tile that starts in column `tile_col` of row `tile_row` covers the pixel in
/// row `row` and column `col` of the region.
pub open spec fn tile_covers(
    tile_rows: int,
    tile_cols: int,
    tile_row: int,
    tile_col: int,
    region: Region,
    row: int,
    col: int,
) -> bool {
    &&& 0 <= region.row + row - tile_row < tile_rows
    &&& 0 <= region.col + col - tile_col < tile_cols
}

/// Copies the part of a tile that lies within a region to the canvas of the region.
pub fn copy_tile_region_2d<T: Copy>(
    tile: &Grid2<T>,
    canvas: &mut Grid2<T>,
    tile_col: usize,
    tile_row: usize,
    region: Region,
)
    requires
        tile.well_formed(),
        old(canvas).well_formed(),
        region.fits(),
        region.rows <= old(canvas).rows,
        region.cols <= old(canvas).cols,
        tile_col + tile.cols <= usize::MAX,
        tile_row + tile.rows <= usize::MAX,
    ensures
        final(canvas).well_formed(),
        final(canvas).rows == old(canvas).rows,
        final(canvas).cols == old(canvas).cols,
        forall|r: int, c: int|
            final(canvas).has(r, c) ==> #[trigger] final(canvas).at(r, c) == (if r < region.rows
                && c < region.cols && tile_covers(
                tile.rows as int,
                tile.cols as int,
                tile_row as int,
                tile_col as int,
                region,
                r,
                c,
            ) {
                tile.at(region.row + r - tile_row, region.col + c - tile_col)
            } else {
                old(canvas).at(r, c)
            }),
{
    let mut row: usize = 0;
    while row < tile.rows
        invariant
            row <= tile.rows,
            tile.well_formed(),
            canvas.well_formed(),
            canvas.rows == old(canvas).rows,
            canvas.cols == old(canvas).cols,
            region.fits(),
            region.rows <= canvas.rows,
            region.cols <= canvas.cols,
            tile_col + tile.cols <= usize::MAX,
            tile_row + tile.rows <= usize::MAX,
            forall|r: int, c: int|
                canvas.has(r, c) ==> #[trigger] canvas.at(r, c) == (if r < region.rows && c
                    < region.cols && tile_covers(
                    row as int,
                    tile.cols as int,
                    tile_row as int,
                    tile_col as int,
                    region,
                    r,
                    c,
                ) {
                    tile.at(region.row + r - tile_row, region.col + c - tile_col)
                } else {
                    old(canvas).at(r, c)
                }),
        decreases tile.rows - row,
    {
        let dst_row: usize = tile_row + row;
        if dst_row >= region.row && dst_row < region.row + region.rows {
            let mut col: usize = 0;
            while col < tile.cols
                invariant
                    row < tile.rows,
                    col <= tile.cols,
                    tile.well_formed(),
                    canvas.well_formed(),
                    canvas.rows == old(canvas).rows,
                    canvas.cols == old(canvas).cols,
                    region.fits(),
                    region.rows <= canvas.rows,
                    region.cols <= canvas.cols,
                    tile_col + tile.cols <= usize::MAX,
                    tile_row + tile.rows <= usize::MAX,
                    dst_row == tile_row + row,
                    region.row <= dst_row < region.row + region.rows,
                    forall|r: int, c: int|
                        canvas.has(r, c) ==> #[trigger] canvas.at(r, c) == (if r < region.rows && c
                            < region.cols && (tile_covers(
                            row as int,
                            tile.cols as int,
                            tile_row as int,
                            tile_col as int,
                            region,
                            r,
                            c,
                        ) || (region.row + r == dst_row && 0 <= region.col + c - tile_col < col)) {
                            tile.at(region.row + r - tile_row, region.col + c - tile_col)
                        } else {
                            old(canvas).at(r, c)
                        }),
                decreases tile.cols - col,
            {
                let dst_col: usize = tile_col + col;
                if dst_col >= region.col && dst_col < region.col + region.cols {
                    canvas.set(dst_row - region.row, dst_col - region.col, tile.get(row, col));
                }
                col = col + 1;
            }
        }
        row = row + 1;
    }
}

/// Copies the part of a tile that lies within a region to the canvas of the region, all
/// bands of the tile.
pub fn copy_tile_region_3d<T: Copy>(
    tile: &Grid3<T>,
    canvas: &mut Grid3<T>,
    tile_col: usize,
    tile_row: usize,
    region: Region,
)
    requires
        tile.well_formed(),
        old(canvas).well_formed(),
        region.fits(),
        region.rows <= old(canvas).rows,
        region.cols <= old(canvas).cols,
        tile.bands <= old(canvas).bands,
        tile_col + tile.cols <= usize::MAX,
        tile_row + tile.rows <= usize::MAX,
    ensures
        final(canvas).well_formed(),
        final(canvas).rows == old(canvas).rows,
        final(canvas).cols == old(canvas).cols,
        final(canvas).bands == old(canvas).bands,
        forall|r: int, c: int, b: int|
            final(canvas).has(r, c, b) ==> #[trigger] final(canvas).at(r, c, b) == (if r
                < region.rows && c < region.cols && b < tile.bands && tile_covers(
                tile.rows as int,
                tile.cols as int,
                tile_row as int,
                tile_col as int,
                region,
                r,
                c,
            ) {
                tile.at(region.row + r - tile_row, region.col + c - tile_col, b)
            } else {
                old(canvas).at(r, c, b)
            }),
{
    let mut row: usize = 0;
    while row < tile.rows
        invariant
            row <= tile.rows,
            tile.well_formed(),
            canvas.well_formed(),
            canvas.rows == old(canvas).rows,
            canvas.cols == old(canvas).cols,
            canvas.bands == old(canvas).bands,
            region.fits(),
            region.rows <= canvas.rows,
            region.cols <= canvas.cols,
            tile.bands <= canvas.bands,
            tile_col + tile.cols <= usize::MAX,
            tile_row + tile.rows <= usize::MAX,
            forall|r: int, c: int, b: int|
                canvas.has(r, c, b) ==> #[trigger] canvas.at(r, c, b) == (if r < region.rows && c
                    < region.cols && b < tile.bands && tile_covers(
                    row as int,
                    tile.cols as int,
                    tile_row as int,
                    tile_col as int,
                    region,
                    r,
                    c,
                ) {
                    tile.at(region.row + r - tile_row, region.col + c - tile_col, b)
                } else {
                    old(canvas).at(r, c, b)
                }),
        decreases tile.rows - row,
    {
        let dst_row: usize = tile_row + row;
        if dst_row >= region.row && dst_row < region.row + region.rows {
            let mut col: usize = 0;
            while col < tile.cols
                invariant
                    row < tile.rows,
                    col <= tile.cols,
                    tile.well_formed(),
                    canvas.well_formed(),
                    canvas.rows == old(canvas).rows,
                    canvas.cols == old(canvas).cols,
                    canvas.bands == old(canvas).bands,
                    region.fits(),
                    region.rows <= canvas.rows,
                    region.cols <= canvas.cols,
                    tile.bands <= canvas.bands,
                    tile_col + tile.cols <= usize::MAX,
                    tile_row + tile.rows <= usize::MAX,
                    dst_row == tile_row + row,
                    region.row <= dst_row < region.row + region.rows,
                    forall|r: int, c: int, b: int|
                        canvas.has(r, c, b) ==> #[trigger] canvas.at(r, c, b) == (if r < region.rows
                            && c < region.cols && b < tile.bands && (tile_covers(
                            row as int,
                            tile.cols as int,
                            tile_row as int,
                            tile_col as int,
                            region,
                            r,
                            c,
                        ) || (region.row + r == dst_row && 0 <= region.col + c - tile_col < col)) {
                            tile.at(region.row + r - tile_row, region.col + c - tile_col, b)
                        } else {
                            old(canvas).at(r, c, b)
                        }),
                decreases tile.cols - col,
            {
                let dst_col: usize = tile_col + col;
                if dst_col >= region.col && dst_col < region.col + region.cols {
                    let mut band: usize = 0;
                    while band < tile.bands
                        invariant
                            row < tile.rows,
                            col < tile.cols,
                            band <= tile.bands,
                            tile.well_formed(),
                            canvas.well_formed(),
                            canvas.rows == old(canvas).rows,
                            canvas.cols == old(canvas).cols,
                            canvas.bands == old(canvas).bands,
                            region.fits(),
                            region.rows <= canvas.rows,
                            region.cols <= canvas.cols,
                            tile.bands <= canvas.bands,
                            dst_row == tile_row + row,
                            dst_col == tile_col + col,
                            region.row <= dst_row < region.row + region.rows,
                            region.col <= dst_col < region.col + region.cols,
                            forall|r: int, c: int, b: int|
                                canvas.has(r, c, b) ==> #[trigger] canvas.at(r, c, b) == (if r
                                    < region.rows && c < region.cols && b < tile.bands && (
                                tile_covers(
                                    row as int,
                                    tile.cols as int,
                                    tile_row as int,
                                    tile_col as int,
                                    region,
                                    r,
                                    c,
                                ) || (region.row + r == dst_row && 0 <= region.col + c - tile_col
                                    < col) || (region.row + r == dst_row && region.col + c
                                    == dst_col && b < band)) {
                                    tile.at(region.row + r - tile_row, region.col + c - tile_col, b)
                                } else {
                                    old(canvas).at(r, c, b)
                                }),
                        decreases tile.bands - band,
                    {
                        canvas.set(
                            dst_row - region.row,
                            dst_col - region.col,
                            band,
                            tile.get(row, col, band),
                        );
                        band = band + 1;
                    }
                }
                col = col + 1;
            }
        }
        row = row + 1;
    }
}

/// The band of a read that a band of a cut tile comes from.
pub open spec fn picked_band(bands: Option<Seq<usize>>, band: int) -> int {
    match bands {
        Some(selected) => selected[band] - 1,
        None => band,
    }
}

/// Whether `tile` is the part of `data` that starts in column `col` of row `row`, with
/// the given bands.
pub open spec fn is_cut<T>(
    tile: StripTile<T>,
    data: StripTile<T>,
    row: int,
    col: int,
    rows: int,
    cols: int,
    bands: Option<Seq<usize>>,
) -> bool {
    &&& tile.well_formed()
    &&& tile is Single == data is Single
    &&& tile.row_count() == rows
    &&& tile.col_count() == cols
    &&& data is Multi ==> tile.band_count() == (match bands {
        Some(selected) => selected.len(),
        None => data.band_count(),
    })
    &&& forall|r: int, c: int, b: int|
        tile.has(r, c, b) ==> #[trigger] tile.at(r, c, b) == data.at(
            row + r,
            col + c,
            if data is Single {
                b
            } else {
                picked_band(bands, b)
            },
        )
}

/// Cuts an output tile out of a read and picks its bands. A read of a single band is
/// taken as it is. The first band that does not exist is an error, and so is an empty
/// selection.
pub fn cut_tile<T: Copy>(data: &StripTile<T>, cut: &TileCut, band_map: Option<&[usize]>) -> (result:
    Result<StripTile<T>, BandError>)
    requires
        data.well_formed(),
        cut.crop_row + cut.crop_rows <= data.row_count(),
        cut.crop_col + cut.crop_cols <= data.col_count(),
        band_map matches Some(bands) ==> bands_positive(bands@) && cut.crop_rows * cut.crop_cols
            * bands@.len() <= usize::MAX,
    ensures
        match result {
            Ok(tile) => {
                &&& data is Multi && band_map is Some ==> band_map->0@.len() > 0 && bands_exist(
                    band_map->0@,
                    data.band_count(),
                )
                &&& is_cut(
                    tile,
                    *data,
                    cut.crop_row as int,
                    cut.crop_col as int,
                    cut.crop_rows as int,
                    cut.crop_cols as int,
                    band_seq(band_map),
                )
            },
            Err(BandError::Missing { band }) => data is Multi && band_map is Some && first_missing(
                band_map->0@,
                data.band_count(),
                band,
            ),
            Err(BandError::Empty) => data is Multi && band_map is Some && band_map->0@.len() == 0,
            Err(BandError::UnexpectedCount) => false,
        },
{
    match data {
        StripTile::Single(plane) => {
            let part: Grid2<T> = plane.window(
                cut.crop_row,
                cut.crop_col,
                cut.crop_rows,
                cut.crop_cols,
            );
            let tile = StripTile::Single(part);
            proof {
                assert forall|r: int, c: int, b: int| tile.has(r, c, b) implies #[trigger] tile.at(
                    r,
                    c,
                    b,
                ) == data.at(cut.crop_row + r, cut.crop_col + c, b) by {
                    assert(part.has(r, c));
                }
            }
            Ok(tile)
        },
        StripTile::Multi(pixels) => {
            let part: Grid3<T> = pixels.window(
                cut.crop_row,
                cut.crop_col,
                cut.crop_rows,
                cut.crop_cols,
            );
            match band_map {
                None => {
                    let tile = StripTile::Multi(part);
                    proof {
                        assert forall|r: int, c: int, b: int| tile.has(r, c, b) implies #[trigger]
                        tile.at(r, c, b) == data.at(cut.crop_row + r, cut.crop_col + c, b) by {
                            assert(part.has(r, c, b));
                        }
                    }
                    Ok(tile)
                },
                Some(bands) => match select_bands(&part, bands) {
                    Err(error) => Err(error),
                    Ok(picked) => {
                        let tile = StripTile::Multi(picked);
                        proof {
                            assert forall|r: int, c: int, b: int| tile.has(r, c, b) implies
                                #[trigger] tile.at(r, c, b) == data.at(
                                cut.crop_row + r,
                                cut.crop_col + c,
                                bands@[b] - 1,
                            ) by {
                                assert(picked.has(r, c, b));
                                assert(1 <= bands@[b] <= part.bands);
                                assert(part.has(r, c, bands@[b] - 1));
                            }
                        }
                        Ok(tile)
                    },
                },
            }
        },
    }
}

/// Whether `tile` has the given size and holds every band of `data`, reduced.
pub open spec fn is_reduced_tile<T: MeanSample>(
    tile: StripTile<T>,
    data: StripTile<T>,
    rows: int,
    cols: int,
    scale: int,
    method: ResamplingChoice,
    nodata: Option<T>,
) -> bool {
    match (tile, data) {
        (StripTile::Single(out), StripTile::Single(src)) => {
            &&& out.well_formed()
            &&& out.rows == rows
            &&& out.cols == cols
            &&& forall|r: int, c: int|
                out.has(r, c) ==> #[trigger] out.at(r, c) == reduced_sample(
                    src,
                    r,
                    c,
                    scale,
                    method,
                    nodata,
                )
        },
        (StripTile::Multi(out), StripTile::Multi(src)) => {
            &&& out.well_formed()
            &&& out.rows == rows
            &&& out.cols == cols
            &&& out.bands == src.bands
            &&& forall|b: int|
                0 <= b < out.bands ==> #[trigger] band_reduced(out, src, b, scale, method, nodata)
        },
        _ => false,
    }
}

/// Reduces a tile to `rows` by `cols` pixels; none for a method that weighs samples by
/// fractions.
pub fn reduce_tile<T: MeanSample>(
    data: &StripTile<T>,
    rows: usize,
    cols: usize,
    scale: usize,
    method: ResamplingChoice,
    nodata: Option<T>,
) -> (result: Option<StripTile<T>>)
    requires
        data.well_formed(),
        rows * cols <= usize::MAX,
        rows * cols * data.band_count() <= usize::MAX,
        method == ResamplingChoice::Nearest && data.band_count() > 0 && rows > 0 && cols > 0
            ==> data.row_count() > 0 && data.col_count() > 0,
        rows * scale <= usize::MAX,
        cols * scale <= usize::MAX,
    ensures
        result is Some <==> integral_method(method),
        result matches Some(tile) ==> is_reduced_tile(
            tile,
            *data,
            rows as int,
            cols as int,
            scale as int,
            method,
            nodata,
        ),
{
    match data {
        StripTile::Single(plane) => match downsample_2d(plane, rows, cols, scale, method, nodata) {
            None => None,
            Some(reduced) => Some(StripTile::Single(reduced)),
        },
        StripTile::Multi(pixels) => match downsample_3d(pixels, rows, cols, scale, method, nodata) {
            None => None,
            Some(reduced) => Some(StripTile::Multi(reduced)),
        },
    }
}

/// An output tile: its pixels, and the samples that are compressed for it.
#[derive(Debug)]
pub struct RowTile<T> {
    pub block_index: usize,
    pub col_off: usize,
    pub row_off: usize,
    pub tile: StripTile<T>,
    pub samples: Vec<T>,
}

impl<T> RowTile<T> {
    /// The tile belongs to the cut, and the samples are those of its pixels.
    pub open spec fn stands_for(
        &self,
        cut: TileCut,
        out_bands: nat,
        tile_size: int,
        fill: T,
    ) -> bool {
        &&& self.block_index == cut.block_index
        &&& self.col_off == cut.col_off
        &&& self.row_off == cut.row_off
        &&& is_encoded_tile(self.samples@, self.tile, tile_size, out_bands, fill)
    }
}

/// The bands of what is cut out of a read.
pub open spec fn cut_bands<T>(data: StripTile<T>, bands: Option<Seq<usize>>) -> nat {
    if data is Single {
        1
    } else {
        match bands {
            Some(selected) => selected.len(),
            None => data.band_count(),
        }
    }
}

/// The cuts lie within the read, and the samples of the tiles can be counted.
pub open spec fn cuts_fit<T>(
    data: StripTile<T>,
    cuts: Seq<TileCut>,
    bands: Option<Seq<usize>>,
    out_bands: nat,
    tile_size: int,
) -> bool {
    &&& encoded_bands(data, out_bands) <= cut_bands(data, bands)
    &&& tile_size * tile_size * cut_bands(data, bands) <= usize::MAX
    &&& tile_size * tile_size <= usize::MAX
    &&& bands matches Some(selected) ==> bands_positive(selected)
    &&& forall|i: int|
        0 <= i < cuts.len() ==> {
            &&& (#[trigger] cuts[i]).crop_row + cuts[i].crop_rows <= data.row_count()
            &&& cuts[i].crop_col + cuts[i].crop_cols <= data.col_count()
            &&& bands matches Some(selected) ==> cuts[i].crop_rows * cuts[i].crop_cols
                * selected.len() <= usize::MAX
        }
}

/// Why nothing can be cut out of a read: a band that is selected is missing, or none is.
pub open spec fn is_band_error<T>(
    data: StripTile<T>,
    bands: Option<Seq<usize>>,
    error: BandError,
) -> bool {
    &&& data is Multi
    &&& bands is Some
    &&& match error {
        BandError::Missing { band } => first_missing(bands->0, data.band_count(), band),
        BandError::Empty => bands->0.len() == 0,
        BandError::UnexpectedCount => false,
    }
}

/// All bands that are selected can be cut out of a read.
pub open spec fn bands_available<T>(data: StripTile<T>, bands: Option<Seq<usize>>) -> bool {
    data is Multi && bands is Some ==> bands->0.len() > 0 && bands_exist(
        bands->0,
        data.band_count(),
    )
}

/// The tile is cut out of a read as it is.
pub open spec fn is_cut_tile<T>(
    tile: StripTile<T>,
    data: StripTile<T>,
    cut: TileCut,
    bands: Option<Seq<usize>>,
) -> bool {
    is_cut(
        tile,
        data,
        cut.crop_row as int,
        cut.crop_col as int,
        cut.crop_rows as int,
        cut.crop_cols as int,
        bands,
    )
}

/// Makes the tiles of a row from what was read for it, each as it is cut out.
pub fn read_strip_row_batch<T: Copy>(
    data: &StripTile<T>,
    batch: &BatchRead,
    band_map: Option<&[usize]>,
    out_bands: usize,
    tile_size: usize,
    fill: T,
) -> (result: Result<Vec<RowTile<T>>, BandError>)
    requires
        data.well_formed(),
        cuts_fit(*data, batch@.cuts, band_seq(band_map), out_bands as nat, tile_size as int),
        forall|i: int|
            0 <= i < batch@.cuts.len() ==> {
                &&& (#[trigger] batch@.cuts[i]).scale is None
                &&& batch@.cuts[i].crop_rows <= tile_size
                &&& batch@.cuts[i].crop_cols <= tile_size
            },
    ensures
        match result {
            Ok(tiles) => {
                &&& tiles@.len() == batch@.cuts.len()
                &&& tiles@.len() > 0 ==> bands_available(*data, band_seq(band_map))
                &&& forall|i: int|
                    0 <= i < tiles@.len() ==> {
                        &&& (#[trigger] tiles@[i]).stands_for(
                            batch@.cuts[i],
                            out_bands as nat,
                            tile_size as int,
                            fill,
                        )
                        &&& is_cut_tile(
                            tiles@[i].tile,
                            *data,
                            batch@.cuts[i],
                            band_seq(band_map),
                        )
                    }
            },
            Err(error) => batch@.cuts.len() > 0 && is_band_error(
                *data,
                band_seq(band_map),
                error,
            ),
        },
{
    let mut tiles: Vec<RowTile<T>> = Vec::new();
    let mut i: usize = 0;
    while i < batch.cuts.len()
        invariant
            i <= batch.cuts@.len(),
            tiles@.len() == i,
            data.well_formed(),
            cuts_fit(*data, batch@.cuts, band_seq(band_map), out_bands as nat, tile_size as int),
            forall|k: int|
                0 <= k < batch@.cuts.len() ==> {
                    &&& (#[trigger] batch@.cuts[k]).scale is None
                    &&& batch@.cuts[k].crop_rows <= tile_size
                    &&& batch@.cuts[k].crop_cols <= tile_size
                },
            i > 0 ==> bands_available(*data, band_seq(band_map)),
            forall|k: int|
                0 <= k < tiles@.len() ==> {
                    &&& (#[trigger] tiles@[k]).stands_for(
                        batch@.cuts[k],
                        out_bands as nat,
                        tile_size as int,
                        fill,
                    )
                    &&& is_cut_tile(tiles@[k].tile, *data, batch@.cuts[k], band_seq(band_map))
                },
        decreases batch.cuts@.len() - i,
    {
        let cut: TileCut = batch.cuts[i];
        assert(cut == batch@.cuts[i as int]);
        let tile: StripTile<T> = match cut_tile(data, &cut, band_map) {
            Ok(tile) => tile,
            Err(error) => {
                return Err(error);
            },
        };
        proof {
            lemma_encoded_fits(*data, tile, out_bands as nat, tile_size as int, band_seq(band_map));
        }
        let samples: Vec<T> = encode_tile_samples(&tile, tile_size, out_bands, fill);
        tiles.push(
            RowTile {
                block_index: cut.block_index,
                col_off: cut.col_off,
                row_off: cut.row_off,
                tile,
                samples,
            },
        );
        i = i + 1;
    }
    Ok(tiles)
}

proof fn lemma_encoded_fits<T>(
    data: StripTile<T>,
    tile: StripTile<T>,
    out_bands: nat,
    tile_size: int,
    bands: Option<Seq<usize>>,
)
    requires
        tile is Single == data is Single,
        tile.band_count() == cut_bands(data, bands),
        encoded_bands(data, out_bands) <= cut_bands(data, bands),
        tile_size * tile_size * cut_bands(data, bands) <= usize::MAX,
    ensures
        encoded_bands(tile, out_bands) <= tile.band_count(),
        tile_size * tile_size * encoded_bands(tile, out_bands) <= usize::MAX,
{
    assert(tile_size * tile_size * encoded_bands(data, out_bands) <= tile_size * tile_size
        * cut_bands(data, bands)) by (nonlinear_arith)
        requires
            encoded_bands(data, out_bands) <= cut_bands(data, bands),
    ;
}

/// The tile is cut out of a read and then reduced, where the cut says so.
pub open spec fn is_overview_tile<T: MeanSample>(
    tile: StripTile<T>,
    data: StripTile<T>,
    cut: TileCut,
    bands: Option<Seq<usize>>,
    method: ResamplingChoice,
    nodata: Option<T>,
) -> bool {
    match cut.scale {
        None => is_cut_tile(tile, data, cut, bands),
        Some(scale) => exists|whole: StripTile<T>| #[trigger]
            is_cut_tile(whole, data, cut, bands) && is_reduced_tile(
                tile,
                whole,
                cut.rows as int,
                cut.cols as int,
                scale as int,
                method,
                nodata,
            ),
    }
}

/// The size of a tile, and of what it is reduced from, can be handled.
pub open spec fn overview_cut_fits(
    cut: TileCut,
    tile_size: int,
    method: ResamplingChoice,
    bands: nat,
) -> bool {
    match cut.scale {
        None => cut.crop_rows <= tile_size && cut.crop_cols <= tile_size,
        Some(scale) => {
            &&& cut.rows <= tile_size
            &&& cut.cols <= tile_size
            &&& cut.rows * scale <= usize::MAX
            &&& cut.cols * scale <= usize::MAX
            &&& method == ResamplingChoice::Nearest && bands > 0 && cut.rows > 0 && cut.cols > 0
                ==> cut.crop_rows > 0 && cut.crop_cols > 0
        },
    }
}

/// Makes the tiles of a row of an overview from what was read for it: each is cut out and
/// reduced. None where a tile is reduced by a method that weighs samples by fractions.
pub fn read_overview_row_batch<T: MeanSample>(
    data: &StripTile<T>,
    batch: &BatchRead,
    band_map: Option<&[usize]>,
    out_bands: usize,
    tile_size: usize,
    method: ResamplingChoice,
    nodata: Option<T>,
    fill: T,
) -> (result: Result<Option<Vec<RowTile<T>>>, BandError>)
    requires
        data.well_formed(),
        cuts_fit(*data, batch@.cuts, band_seq(band_map), out_bands as nat, tile_size as int),
        forall|i: int|
            0 <= i < batch@.cuts.len() ==> overview_cut_fits(
                #[trigger] batch@.cuts[i],
                tile_size as int,
                method,
                cut_bands(*data, band_seq(band_map)),
            ),
    ensures
        match result {
            Ok(Some(tiles)) => {
                &&& tiles@.len() == batch@.cuts.len()
                &&& tiles@.len() > 0 ==> bands_available(*data, band_seq(band_map))
                &&& forall|i: int|
                    0 <= i < tiles@.len() ==> {
                        &&& (#[trigger] tiles@[i]).stands_for(
                            batch@.cuts[i],
                            out_bands as nat,
                            tile_size as int,
                            fill,
                        )
                        &&& batch@.cuts[i].scale is Some ==> integral_method(method)
                        &&& is_overview_tile(
                            tiles@[i].tile,
                            *data,
                            batch@.cuts[i],
                            band_seq(band_map),
                            method,
                            nodata,
                        )
                    }
            },
            Ok(None) => {
                &&& bands_available(*data, band_seq(band_map))
                &&& !integral_method(method)
                &&& exists|i: int|
                    0 <= i < batch@.cuts.len() && (#[trigger] batch@.cuts[i]).scale is Some
            },
            Err(error) => batch@.cuts.len() > 0 && is_band_error(
                *data,
                band_seq(band_map),
                error,
            ),
        },
{
    let mut tiles: Vec<RowTile<T>> = Vec::new();
    let mut i: usize = 0;
    while i < batch.cuts.len()
        invariant
            i <= batch.cuts@.len(),
            tiles@.len() == i,
            data.well_formed(),
            cuts_fit(*data, batch@.cuts, band_seq(band_map), out_bands as nat, tile_size as int),
            forall|k: int|
                0 <= k < batch@.cuts.len() ==> overview_cut_fits(
                    #[trigger] batch@.cuts[k],
                    tile_size as int,
                    method,
                    cut_bands(*data, band_seq(band_map)),
                ),
            i > 0 ==> bands_available(*data, band_seq(band_map)),
            forall|k: int|
                0 <= k < tiles@.len() ==> {
                    &&& (#[trigger] tiles@[k]).stands_for(
                        batch@.cuts[k],
                        out_bands as nat,
                        tile_size as int,
                        fill,
                    )
                    &&& batch@.cuts[k].scale is Some ==> integral_method(method)
                    &&& is_overview_tile(
                        tiles@[k].tile,
                        *data,
                        batch@.cuts[k],
                        band_seq(band_map),
                        method,
                        nodata,
                    )
                },
        decreases batch.cuts@.len() - i,
    {
        let cut: TileCut = batch.cuts[i];
        assert(cut == batch@.cuts[i as int]);
        let whole: StripTile<T> = match cut_tile(data, &cut, band_map) {
            Ok(whole) => whole,
            Err(error) => {
                return Err(error);
            },
        };
        assert(is_cut_tile(whole, *data, cut, band_seq(band_map)));
        let tile: StripTile<T> = match cut.scale {
            None => whole,
            Some(scale) => {
                proof {
                    lemma_mul_bound(
                        cut.rows as int,
                        cut.cols as int,
                        tile_size as int,
                        tile_size as int,
                    );
                    lemma_mul_bound(
                        cut.rows * cut.cols,
                        whole.band_count() as int,
                        tile_size * tile_size,
                        whole.band_count() as int,
                    );
                }
                match reduce_tile(&whole, cut.rows, cut.cols, scale, method, nodata) {
                    Some(tile) => tile,
                    None => {
                        return Ok(None);
                    },
                }
            },
        };
        proof {
            lemma_encoded_fits(*data, tile, out_bands as nat, tile_size as int, band_seq(band_map));
        }
        let samples: Vec<T> = encode_tile_samples(&tile, tile_size, out_bands, fill);
        tiles.push(
            RowTile {
                block_index: cut.block_index,
                col_off: cut.col_off,
                row_off: cut.row_off,
                tile,
                samples,
            },
        );
        i = i + 1;
    }
    Ok(Some(tiles))
}

/// The data are what a read gives of a source whose sample of a band in a row and a column
/// is `source(row, col, band)`: of one band, or of all.
pub open spec fn holds_read<T>(
    data: StripTile<T>,
    read: SourceRead,
    source: spec_fn(int, int, int) -> T,
) -> bool {
    &&& data.row_count() == read.rows
    &&& data.col_count() == read.cols
    &&& data is Single == read.band is Some
    &&& forall|r: int, c: int, b: int|
        data.has(r, c, b) ==> #[trigger] data.at(r, c, b) == source(
            read.row + r,
            read.col + c,
            match read.band {
                Some(band) => band as int,
                None => b,
            },
        )
}

/// The tiles of the row of tiles that holds raster row `y`.
pub open spec fn tile_row(width: nat, height: nat, tile: nat, y: int) -> Seq<TileJob> {
    let across = ceil_div(width, tile) as int;
    tile_grid(width, height, tile).subrange(
        y / tile as int * across,
        y / tile as int * across + across,
    )
}

/// Pixels are kept. Where the row of tiles that covers an output pixel is planned, read,
/// cut and padded, the block that the pixel belongs to holds, in the pixel's place, the
/// sample of the source pixel that the output pixel stands for.
pub proof fn law_full_size_tiles_keep_pixels<T>(
    source: spec_fn(int, int, int) -> T,
    width: nat,
    height: nat,
    tile: nat,
    left: nat,
    top: nat,
    out_bands: nat,
    band_map: Option<Seq<usize>>,
    data: StripTile<T>,
    cut_out: StripTile<T>,
    samples: Seq<T>,
    fill: T,
    x: int,
    y: int,
    band: int,
)
    requires
        0 < tile <= u32::MAX,
        width <= u32::MAX,
        height <= u32::MAX,
        left <= usize::MAX,
        top + height <= usize::MAX,
        ceil_div(height, tile) * ceil_div(width, tile) <= usize::MAX,
        0 <= x < width,
        0 <= y < height,
        0 <= band < out_bands,
        band_map_usable(out_bands, band_map),
        data is Multi ==> (band_map matches Some(bands) ==> bands_positive(bands) && bands_exist(
            bands,
            data.band_count(),
        )),
        ({
            let jobs = tile_row(width, height, tile, y);
            let batch = column_batch(
                0,
                single_band(out_bands, band_map),
                top + y / tile as int * tile,
                left as int,
                jobs,
                y / tile as int * ceil_div(width, tile),
            );
            let cut = batch.cuts[x / tile as int];
            &&& holds_read(data, batch.read, source)
            &&& is_cut(
                cut_out,
                data,
                cut.crop_row as int,
                cut.crop_col as int,
                cut.crop_rows as int,
                cut.crop_cols as int,
                band_map,
            )
            &&& encoded_bands(cut_out, out_bands) <= cut_out.band_count()
            &&& is_encoded_tile(samples, cut_out, tile as int, out_bands, fill)
        }),
    ensures
        ({
            let across = ceil_div(width, tile) as int;
            let jobs = tile_row(width, height, tile, y);
            let batch = column_batch(
                0,
                single_band(out_bands, band_map),
                top + y / tile as int * tile,
                left as int,
                jobs,
                y / tile as int * across,
            );
            &&& jobs.len() == across
            &&& batch.cuts[x / tile as int].block_index == y / tile as int * across + x
                / tile as int
            &&& tile_grid(width, height, tile)[y / tile as int * across + x
                / tile as int].covers(x, y)
            &&& sample3(
                samples,
                tile as int,
                out_bands as int,
                y % tile as int,
                x % tile as int,
                band,
            ) == source(top + y, left + x, picked_band(band_map, band))
        }),
{
    let t = tile as int;
    let across = ceil_div(width, tile) as int;
    let down = ceil_div(height, tile) as int;
    let row = y / t;
    let col = x / t;
    law_tiles_partition_raster(width, height, tile, x, y);
    let tiles = tile_grid(width, height, tile);
    let home = row * across + col;
    assert(tiles[home].covers(x, y));
    lemma_tile_of_pixel(width, height, tile, x, y);
    assert(0 <= row * across && row * across + across <= down * across) by (nonlinear_arith)
        requires
            0 <= row < down,
            0 <= across,
    ;
    let jobs = tile_row(width, height, tile, y);
    assert(jobs[col] == tiles[home]);
    assert(jobs[0] == tiles[row * across]);
    lemma_tile_job_bounds(width, height, tile, row, col);
    lemma_tile_job_bounds(width, height, tile, row, 0);
    lemma_grid_index(row, col, across, down);
    lemma_grid_index(row, 0, across, down);
    assert(jobs[col] == tile_job(width, height, tile, row, col));
    assert(jobs[0] == tile_job(width, height, tile, row, 0));
    assert forall|k: int| 0 <= k < jobs.len() implies {
        &&& (#[trigger] jobs[k]).col_off + jobs[k].cols <= width
    } by {
        lemma_grid_index(row, k, across, down);
        lemma_tile_job_bounds(width, height, tile, row, k);
    }
    assert(tiles_fit(jobs));
    lemma_tiles_end(jobs);
    let r = y % t;
    let c = x % t;
    assert(y == row * t + r && x == col * t + c) by {
        lemma_fundamental_div_mod(y, t);
        lemma_fundamental_div_mod(x, t);
        assert(t * row == row * t) by (nonlinear_arith);
        assert(t * col == col * t) by (nonlinear_arith);
    }
    let b = if cut_out is Single {
        0
    } else {
        band
    };
    assert(cut_out.has(r, c, b));
    assert(cut_out.at(r, c, b) == data.at(
        r,
        col * t + c,
        if data is Single {
            b
        } else {
            picked_band(band_map, b)
        },
    ));
}

/// What an overview tile is reduced from are the pixels of the source window that the tile
/// stands for, in the bands that are selected.
pub proof fn law_overview_tiles_are_reduced_from_their_pixels<T: MeanSample>(
    source: spec_fn(int, int, int) -> T,
    plan: OverviewSource,
    out_bands: nat,
    band_map: Option<Seq<usize>>,
    row_off: int,
    jobs: Seq<TileJob>,
    first_index: int,
    i: int,
    data: StripTile<T>,
    tile: StripTile<T>,
    method: ResamplingChoice,
    nodata: Option<T>,
)
    requires
        plan.source_layer == 0,
        plan.target_level > 0,
        tiles_fit(jobs),
        source_windows_fit(jobs, plan.target_level as nat, plan.window),
        0 <= first_index,
        first_index + jobs.len() <= usize::MAX,
        0 <= i < jobs.len(),
        band_map_usable(out_bands, band_map),
        data is Multi ==> (band_map matches Some(bands) ==> bands_positive(bands) && bands_exist(
            bands,
            data.band_count(),
        )),
        ({
            let batches = overview_batches(
                plan,
                single_band(out_bands, band_map),
                row_off,
                jobs,
                first_index,
            );
            let (read, cut) = overview_cut(plan, batches, i);
            &&& holds_read(data, read, source)
            &&& is_overview_tile(tile, data, cut, band_map, method, nodata)
        }),
    ensures
        ({
            let window = source_window(
                jobs[i],
                plan.target_level as nat,
                plan.width as nat,
                plan.height as nat,
                plan.window,
            );
            exists|whole: StripTile<T>|
                {
                    &&& #[trigger] whole.well_formed()
                    &&& whole.col_count() == window.2
                    &&& whole.row_count() == window.3
                    &&& forall|r: int, c: int, b: int|
                        whole.has(r, c, b) ==> #[trigger] whole.at(r, c, b) == source(
                            window.1 + r,
                            window.0 + c,
                            picked_band(band_map, b),
                        )
                    &&& is_reduced_tile(
                        tile,
                        whole,
                        jobs[i].rows as int,
                        jobs[i].cols as int,
                        plan.target_level as int,
                        method,
                        nodata,
                    )
                }
        }),
{
    let band = single_band(out_bands, band_map);
    let batches = overview_batches(plan, band, row_off, jobs, first_index);
    let (read, cut) = overview_cut(plan, batches, i);
    let window = source_window(
        jobs[i],
        plan.target_level as nat,
        plan.width as nat,
        plan.height as nat,
        plan.window,
    );
    law_cuts_are_source_windows(plan, band, row_off, jobs, first_index, i);
    law_cuts_lie_within_reads(plan, band, row_off, jobs, first_index);
    let scale = plan.target_level as int;
    let whole = choose|whole: StripTile<T>| #[trigger]
        is_cut_tile(whole, data, cut, band_map) && is_reduced_tile(
            tile,
            whole,
            cut.rows as int,
            cut.cols as int,
            scale,
            method,
            nodata,
        );
    assert(is_cut_tile(whole, data, cut, band_map));
    assert(cut.crop_row + cut.crop_rows <= read.rows && cut.crop_col + cut.crop_cols <= read.cols);
    assert forall|r: int, c: int, b: int| whole.has(r, c, b) implies #[trigger] whole.at(r, c, b)
        == source(window.1 + r, window.0 + c, picked_band(band_map, b)) by {
        let from = if data is Single {
            b
        } else {
            picked_band(band_map, b)
        };
        assert(whole.at(r, c, b) == data.at(cut.crop_row + r, cut.crop_col + c, from));
        assert(data.has(cut.crop_row + r, cut.crop_col + c, from));
    }
    assert(whole.well_formed());
}

/// Whether a sample is the mean of a block of `size` by `size` pixels: of those that exist and
/// do not stand for missing data; of none it is the value for missing data, or zero.
pub open spec fn is_block_mean<T: MeanSample>(
    mean: T,
    pixel: spec_fn(int, int) -> T,
    exists_at: spec_fn(int, int) -> bool,
    nodata: Option<T>,
    row: int,
    col: int,
    size: nat,
) -> bool {
    let sum = sum_area(
        |r: int, c: int|
            if exists_at(r, c) && nodata != Some(pixel(r, c)) {
                pixel(r, c).number()
            } else {
                0
            },
        row,
        col,
        size,
        size,
    );
    let count = sum_area(
        |r: int, c: int|
            if exists_at(r, c) && nodata != Some(pixel(r, c)) {
                1
            } else {
                0
            },
        row,
        col,
        size,
        size,
    );
    if count > 0 {
        is_next_integer(mean.number(), sum, count)
    } else {
        match nodata {
            Some(missing) => mean == missing,
            None => mean.number() == 0,
        }
    }
}

/// The mean of a block is that of the same pixels in another place.
pub proof fn lemma_block_means_move<T: MeanSample>(
    mean: T,
    pixel: spec_fn(int, int) -> T,
    exists_at: spec_fn(int, int) -> bool,
    other: spec_fn(int, int) -> T,
    other_exists: spec_fn(int, int) -> bool,
    nodata: Option<T>,
    row: int,
    col: int,
    down: int,
    right: int,
    size: nat,
)
    requires
        is_block_mean(mean, pixel, exists_at, nodata, row, col, size),
        forall|r: int, c: int|
            row <= r < row + size && col <= c < col + size ==> #[trigger] exists_at(r, c)
                == other_exists(r + down, c + right) && (exists_at(r, c) ==> pixel(r, c) == other(
                r + down,
                c + right,
            )),
    ensures
        is_block_mean(mean, other, other_exists, nodata, row + down, col + right, size),
{
    let value = |r: int, c: int|
        if exists_at(r, c) && nodata != Some(pixel(r, c)) {
            pixel(r, c).number()
        } else {
            0
        };
    let one = |r: int, c: int|
        if exists_at(r, c) && nodata != Some(pixel(r, c)) {
            1
        } else {
            0
        };
    let moved_value = |r: int, c: int|
        if other_exists(r, c) && nodata != Some(other(r, c)) {
            other(r, c).number()
        } else {
            0
        };
    let moved_one = |r: int, c: int|
        if other_exists(r, c) && nodata != Some(other(r, c)) {
            1
        } else {
            0
        };
    assert forall|r: int, c: int|
        row <= r < row + size && col <= c < col + size implies #[trigger] value(r, c)
        == moved_value(r + down, c + right) by {
        assert(exists_at(r, c) == other_exists(r + down, c + right));
    }
    assert forall|r: int, c: int|
        row <= r < row + size && col <= c < col + size implies #[trigger] one(r, c) == moved_one(
        r + down,
        c + right,
    ) by {
        assert(exists_at(r, c) == other_exists(r + down, c + right));
    }
    lemma_same_area(value, moved_value, row, col, down, right, size, size);
    lemma_same_area(one, moved_one, row, col, down, right, size, size);
}

/// A pixel of a tile that is reduced by averaging is the mean of the block of pixels that it
/// stands for, in its own band.
pub proof fn law_reduced_pixel_is_mean_of_block<T: MeanSample>(
    tile: StripTile<T>,
    data: StripTile<T>,
    rows: int,
    cols: int,
    scale: nat,
    nodata: Option<T>,
    r: int,
    c: int,
    b: int,
)
    requires
        0 < scale,
        is_reduced_tile(tile, data, rows, cols, scale as int, ResamplingChoice::Average, nodata),
        tile.has(r, c, b),
    ensures
        is_block_mean(
            tile.at(r, c, b),
            |i: int, j: int| data.at(i, j, b),
            |i: int, j: int| 0 <= i < data.row_count() && 0 <= j < data.col_count(),
            nodata,
            r * scale,
            c * scale,
            scale,
        ),
{
    let plane = reduced_plane(tile, data, rows, cols, scale as int, ResamplingChoice::Average,
        nodata, r, c, b);
    lemma_average_is_block_mean(plane, r, c, scale, nodata, tile.at(r, c, b));
    lemma_block_means_move(
        tile.at(r, c, b),
        |i: int, j: int| plane.at(i, j),
        |i: int, j: int| plane.has(i, j),
        |i: int, j: int| data.at(i, j, b),
        |i: int, j: int| 0 <= i < data.row_count() && 0 <= j < data.col_count(),
        nodata,
        r * scale,
        c * scale,
        0,
        0,
        scale,
    );
}

/// An averaged sample is the mean of its block.
pub proof fn lemma_average_is_block_mean<T: MeanSample>(
    plane: Grid2<T>,
    r: int,
    c: int,
    scale: nat,
    nodata: Option<T>,
    mean: T,
)
    requires
        0 <= r,
        0 <= c,
        0 < scale,
        mean == reduced_sample(plane, r, c, scale as int, ResamplingChoice::Average, nodata),
    ensures
        is_block_mean(
            mean,
            |i: int, j: int| plane.at(i, j),
            |i: int, j: int| plane.has(i, j),
            nodata,
            r * scale,
            c * scale,
            scale,
        ),
{
    law_average_is_mean_of_block(plane, r, c, scale, nodata, mean);
    let pixel = |i: int, j: int| plane.at(i, j);
    let has = |i: int, j: int| plane.has(i, j);
    let value = |i: int, j: int|
        if plane.has(i, j) && nodata != Some(plane.at(i, j)) {
            plane.at(i, j).number()
        } else {
            0
        };
    let one = |i: int, j: int|
        if plane.has(i, j) && nodata != Some(plane.at(i, j)) {
            1
        } else {
            0
        };
    let same_value = |i: int, j: int|
        if has(i, j) && nodata != Some(pixel(i, j)) {
            pixel(i, j).number()
        } else {
            0
        };
    let same_one = |i: int, j: int|
        if has(i, j) && nodata != Some(pixel(i, j)) {
            1
        } else {
            0
        };
    lemma_same_area(value, same_value, r * scale, c * scale, 0, 0, scale, scale);
    lemma_same_area(one, same_one, r * scale, c * scale, 0, 0, scale, scale);
    lemma_cells_count(one, r * scale, c * scale, scale, scale);
}

proof fn lemma_line_counts(one: spec_fn(int, int) -> int, row: int, col: int, cols: nat)
    requires
        forall|r: int, c: int| #[trigger] one(r, c) >= 0,
    ensures
        sum_line(one, row, col, cols) >= 0,
    decreases cols,
{
    if cols > 0 {
        lemma_line_counts(one, row, col, (cols - 1) as nat);
    }
}

proof fn lemma_cells_count(
    one: spec_fn(int, int) -> int,
    row: int,
    col: int,
    rows: nat,
    cols: nat,
)
    requires
        forall|r: int, c: int| #[trigger] one(r, c) >= 0,
    ensures
        sum_area(one, row, col, rows, cols) >= 0,
    decreases rows,
{
    if rows > 0 {
        lemma_cells_count(one, row, col, (rows - 1) as nat, cols);
        lemma_line_counts(one, row + rows - 1, col, cols);
    }
}

/// A pixel of a tile that is reduced by the nearest sample is the first of the block of pixels
/// that it stands for, in its own band.
pub proof fn law_reduced_pixel_is_first_of_block<T: MeanSample>(
    tile: StripTile<T>,
    data: StripTile<T>,
    rows: int,
    cols: int,
    scale: nat,
    nodata: Option<T>,
    r: int,
    c: int,
    b: int,
)
    requires
        is_reduced_tile(tile, data, rows, cols, scale as int, ResamplingChoice::Nearest, nodata),
        tile.has(r, c, b),
        r * scale < data.row_count(),
        c * scale < data.col_count(),
    ensures
        tile.at(r, c, b) == data.at(r * scale, c * scale, b),
{
    let plane = reduced_plane(tile, data, rows, cols, scale as int, ResamplingChoice::Nearest,
        nodata, r, c, b);
    lemma_mul_bound(r, scale as int, r, scale as int);
    lemma_mul_bound(c, scale as int, c, scale as int);
    law_nearest_is_first_of_block(plane, r, c, scale, nodata);
    assert(plane.has(r * scale, c * scale));
}

/// The band that a reduced pixel is made from.
proof fn reduced_plane<T: MeanSample>(
    tile: StripTile<T>,
    data: StripTile<T>,
    rows: int,
    cols: int,
    scale: int,
    method: ResamplingChoice,
    nodata: Option<T>,
    r: int,
    c: int,
    b: int,
) -> (plane: Grid2<T>)
    requires
        is_reduced_tile(tile, data, rows, cols, scale, method, nodata),
        tile.has(r, c, b),
    ensures
        plane.rows == data.row_count(),
        plane.cols == data.col_count(),
        forall|i: int, j: int| plane.has(i, j) ==> #[trigger] plane.at(i, j) == data.at(i, j, b),
        tile.at(r, c, b) == reduced_sample(plane, r, c, scale, method, nodata),
{
    match (tile, data) {
        (StripTile::Single(out), StripTile::Single(src)) => {
            assert(out.has(r, c));
            src
        },
        (StripTile::Multi(out), StripTile::Multi(src)) => {
            assert(band_reduced(out, src, b, scale, method, nodata));
            let plane = choose|plane: Grid2<T>| #[trigger]
                is_band(plane, src, b) && forall|i: int, j: int|
                    out.has(i, j, b) ==> #[trigger] out.at(i, j, b) == reduced_sample(
                        plane,
                        i,
                        j,
                        scale,
                        method,
                        nodata,
                    );
            assert(is_band(plane, src, b));
            assert(out.has(r, c, b));
            plane
        },
        _ => arbitrary(),
    }
}

/// A pixel of an overview that is averaged from the full-size image stands for the block of
/// pixels that begins, from the corner of the window, at `level` times its own row and
/// column, and has `level` rows and columns: it is their mean, in the band that is selected.
pub proof fn law_overview_pixel_is_mean_of_source_block<T: MeanSample>(
    source: spec_fn(int, int, int) -> T,
    plan: OverviewSource,
    out_bands: nat,
    band_map: Option<Seq<usize>>,
    row_off: int,
    jobs: Seq<TileJob>,
    first_index: int,
    i: int,
    data: StripTile<T>,
    tile: StripTile<T>,
    nodata: Option<T>,
    corner: (int, int),
    x: int,
    y: int,
    band: int,
)
    requires
        plan.source_layer == 0,
        plan.target_level > 0,
        tiles_fit(jobs),
        source_windows_fit(jobs, plan.target_level as nat, plan.window),
        0 <= first_index,
        first_index + jobs.len() <= usize::MAX,
        0 <= i < jobs.len(),
        band_map_usable(out_bands, band_map),
        data is Multi ==> (band_map matches Some(bands) ==> bands_positive(bands) && bands_exist(
            bands,
            data.band_count(),
        )),
        ({
            let batches = overview_batches(
                plan,
                single_band(out_bands, band_map),
                row_off,
                jobs,
                first_index,
            );
            let (read, cut) = overview_cut(plan, batches, i);
            &&& holds_read(data, read, source)
            &&& is_overview_tile(tile, data, cut, band_map, ResamplingChoice::Average, nodata)
        }),
        corner == (match plan.window {
            Some(window) => (window.col_off as int, window.row_off as int),
            None => (0int, 0int),
        }),
        jobs[i].col_off <= x < jobs[i].col_off + jobs[i].cols,
        jobs[i].row_off <= y < jobs[i].row_off + jobs[i].rows,
        tile.has(y - jobs[i].row_off, x - jobs[i].col_off, band),
    ensures
        is_block_mean(
            tile.at(y - jobs[i].row_off, x - jobs[i].col_off, band),
            |r: int, c: int| source(r, c, picked_band(band_map, band)),
            |r: int, c: int| r < plan.height && c < plan.width,
            nodata,
            corner.1 + y * plan.target_level,
            corner.0 + x * plan.target_level,
            plan.target_level as nat,
        ),
{
    law_overview_tiles_are_reduced_from_their_pixels(
        source,
        plan,
        out_bands,
        band_map,
        row_off,
        jobs,
        first_index,
        i,
        data,
        tile,
        ResamplingChoice::Average,
        nodata,
    );
    let job = jobs[i];
    let level = plan.target_level as int;
    let window = source_window(
        job,
        level as nat,
        plan.width as nat,
        plan.height as nat,
        plan.window,
    );
    let whole = choose|whole: StripTile<T>|
        {
            &&& #[trigger] whole.well_formed()
            &&& whole.col_count() == window.2
            &&& whole.row_count() == window.3
            &&& forall|r: int, c: int, b: int|
                whole.has(r, c, b) ==> #[trigger] whole.at(r, c, b) == source(
                    window.1 + r,
                    window.0 + c,
                    picked_band(band_map, b),
                )
            &&& is_reduced_tile(
                tile,
                whole,
                job.rows as int,
                job.cols as int,
                level,
                ResamplingChoice::Average,
                nodata,
            )
        };
    let r = y - job.row_off;
    let c = x - job.col_off;
    law_reduced_pixel_is_mean_of_block(
        tile,
        whole,
        job.rows as int,
        job.cols as int,
        level as nat,
        nodata,
        r,
        c,
        band,
    );
    lemma_block_lies_in_area(r, job.rows as int, level);
    lemma_block_lies_in_area(c, job.cols as int, level);
    lemma_block_place(y, job.row_off as int, level);
    lemma_block_place(x, job.col_off as int, level);
    lemma_block_means_move(
        tile.at(r, c, band),
        |i: int, j: int| whole.at(i, j, band),
        |i: int, j: int| 0 <= i < whole.row_count() && 0 <= j < whole.col_count(),
        |i: int, j: int| source(i, j, picked_band(band_map, band)),
        |i: int, j: int| i < plan.height && j < plan.width,
        nodata,
        r * level,
        c * level,
        window.1,
        window.0,
        level as nat,
    );
}

/// A pixel of an overview that takes the nearest sample of the full-size image is, from the
/// corner of the window, the pixel at `level` times its own row and column, in the band that
/// is selected.
pub proof fn law_overview_pixel_is_source_pixel<T: MeanSample>(
    source: spec_fn(int, int, int) -> T,
    plan: OverviewSource,
    out_bands: nat,
    band_map: Option<Seq<usize>>,
    row_off: int,
    jobs: Seq<TileJob>,
    first_index: int,
    i: int,
    data: StripTile<T>,
    tile: StripTile<T>,
    nodata: Option<T>,
    corner: (int, int),
    x: int,
    y: int,
    band: int,
)
    requires
        plan.source_layer == 0,
        plan.target_level > 0,
        tiles_fit(jobs),
        source_windows_fit(jobs, plan.target_level as nat, plan.window),
        0 <= first_index,
        first_index + jobs.len() <= usize::MAX,
        0 <= i < jobs.len(),
        band_map_usable(out_bands, band_map),
        data is Multi ==> (band_map matches Some(bands) ==> bands_positive(bands) && bands_exist(
            bands,
            data.band_count(),
        )),
        ({
            let batches = overview_batches(
                plan,
                single_band(out_bands, band_map),
                row_off,
                jobs,
                first_index,
            );
            let (read, cut) = overview_cut(plan, batches, i);
            &&& holds_read(data, read, source)
            &&& is_overview_tile(tile, data, cut, band_map, ResamplingChoice::Nearest, nodata)
        }),
        corner == (match plan.window {
            Some(window) => (window.col_off as int, window.row_off as int),
            None => (0int, 0int),
        }),
        jobs[i].col_off <= x < jobs[i].col_off + jobs[i].cols,
        jobs[i].row_off <= y < jobs[i].row_off + jobs[i].rows,
        tile.has(y - jobs[i].row_off, x - jobs[i].col_off, band),
        corner.1 + y * plan.target_level < plan.height,
        corner.0 + x * plan.target_level < plan.width,
    ensures
        tile.at(y - jobs[i].row_off, x - jobs[i].col_off, band) == source(
            corner.1 + y * plan.target_level,
            corner.0 + x * plan.target_level,
            picked_band(band_map, band),
        ),
{
    law_overview_tiles_are_reduced_from_their_pixels(
        source,
        plan,
        out_bands,
        band_map,
        row_off,
        jobs,
        first_index,
        i,
        data,
        tile,
        ResamplingChoice::Nearest,
        nodata,
    );
    let job = jobs[i];
    let level = plan.target_level as int;
    let window = source_window(
        job,
        level as nat,
        plan.width as nat,
        plan.height as nat,
        plan.window,
    );
    let whole = choose|whole: StripTile<T>|
        {
            &&& #[trigger] whole.well_formed()
            &&& whole.col_count() == window.2
            &&& whole.row_count() == window.3
            &&& forall|r: int, c: int, b: int|
                whole.has(r, c, b) ==> #[trigger] whole.at(r, c, b) == source(
                    window.1 + r,
                    window.0 + c,
                    picked_band(band_map, b),
                )
            &&& is_reduced_tile(
                tile,
                whole,
                job.rows as int,
                job.cols as int,
                level,
                ResamplingChoice::Nearest,
                nodata,
            )
        };
    let r = y - job.row_off;
    let c = x - job.col_off;
    lemma_block_lies_in_area(r, job.rows as int, level);
    lemma_block_lies_in_area(c, job.cols as int, level);
    lemma_block_place(y, job.row_off as int, level);
    lemma_block_place(x, job.col_off as int, level);
    law_reduced_pixel_is_first_of_block(
        tile,
        whole,
        job.rows as int,
        job.cols as int,
        level as nat,
        nodata,
        r,
        c,
        band,
    );
    assert(whole.has(r * level, c * level, band));
}

/// The block of a pixel lies in the area that its tile stands for.
pub proof fn lemma_block_lies_in_area(at: int, count: int, scale: int)
    requires
        0 <= at < count,
        0 < scale,
    ensures
        0 <= at * scale,
        at * scale + scale <= count * scale,
{
    assert(0 <= at * scale && at * scale + scale <= count * scale) by (nonlinear_arith)
        requires
            0 <= at < count,
            0 < scale,
    ;
}

/// The block of a pixel begins as far behind the area of its tile as the pixel lies behind
/// the tile's corner, times the scale.
pub proof fn lemma_block_place(at: int, start: int, scale: int)
    ensures
        start * scale + (at - start) * scale == at * scale,
{
    assert(start * scale + (at - start) * scale == at * scale) by (nonlinear_arith);
}

/// A selected band is the one with the number that is given for it, counted from one.
pub proof fn law_bands_are_picked_by_number(bands: Seq<usize>, band: int)
    ensures
        picked_band(Some(bands), band) + 1 == bands[band],
        picked_band(None, band) == band,
{
}

/// A pixel of an overview that is averaged from another layer of the source is the mean of
/// the block of pixels of that layer that it stands for, in the band that is selected.
pub proof fn law_overview_pixel_is_mean_of_layer_block<T: MeanSample>(
    layer: spec_fn(int, int, int) -> T,
    plan: OverviewSource,
    out_bands: nat,
    band_map: Option<Seq<usize>>,
    row_off: int,
    jobs: Seq<TileJob>,
    first_index: int,
    i: int,
    data: StripTile<T>,
    tile: StripTile<T>,
    nodata: Option<T>,
    corner: (int, int),
    x: int,
    y: int,
    band: int,
)
    requires
        plan.source_layer > 0,
        plan.source_factor > 0,
        plan.layer_downsample > 1,
        plan.source_factor * plan.layer_downsample == plan.target_level,
        corner == layer_corner(plan),
        tiles_fit(jobs),
        0 <= first_index,
        first_index + jobs.len() <= usize::MAX,
        0 <= i < jobs.len(),
        jobs[i].row_off == row_off,
        jobs[i].rows == jobs[0].rows,
        corner.0 + (jobs[i].col_off + jobs[i].cols) * plan.layer_downsample <= usize::MAX,
        corner.1 + (jobs[i].row_off + jobs[i].rows) * plan.layer_downsample <= usize::MAX,
        band_map_usable(out_bands, band_map),
        data is Multi ==> (band_map matches Some(bands) ==> bands_positive(bands) && bands_exist(
            bands,
            data.band_count(),
        )),
        ({
            let batches = overview_batches(
                plan,
                single_band(out_bands, band_map),
                row_off,
                jobs,
                first_index,
            );
            let (read, cut) = overview_cut(plan, batches, i);
            &&& holds_read(data, read, layer)
            &&& is_overview_tile(tile, data, cut, band_map, ResamplingChoice::Average, nodata)
        }),
        jobs[i].col_off <= x < jobs[i].col_off + jobs[i].cols,
        jobs[i].row_off <= y < jobs[i].row_off + jobs[i].rows,
        tile.has(y - jobs[i].row_off, x - jobs[i].col_off, band),
    ensures
        is_block_mean(
            tile.at(y - jobs[i].row_off, x - jobs[i].col_off, band),
            |r: int, c: int| layer(r, c, picked_band(band_map, band)),
            |r: int, c: int| true,
            nodata,
            corner.1 + y * plan.layer_downsample,
            corner.0 + x * plan.layer_downsample,
            plan.layer_downsample as nat,
        ),
{
    let read_band = single_band(out_bands, band_map);
    let batches = overview_batches(plan, read_band, row_off, jobs, first_index);
    let (read, cut) = overview_cut(plan, batches, i);
    assert(plan.target_level > 0) by (nonlinear_arith)
        requires
            plan.source_factor * plan.layer_downsample == plan.target_level,
            plan.source_factor > 0,
            plan.layer_downsample > 1,
    ;
    law_layer_cuts_are_at_their_place(plan, read_band, row_off, jobs, first_index, i, corner);
    let scale = plan.layer_downsample as int;
    let job = jobs[i];
    let whole = choose|whole: StripTile<T>| #[trigger]
        is_cut_tile(whole, data, cut, band_map) && is_reduced_tile(
            tile,
            whole,
            cut.rows as int,
            cut.cols as int,
            scale,
            ResamplingChoice::Average,
            nodata,
        );
    let top = corner.1 + job.row_off * scale;
    let left = corner.0 + job.col_off * scale;
    assert forall|r: int, c: int, b: int| whole.has(r, c, b) implies #[trigger] whole.at(r, c, b)
        == layer(top + r, left + c, picked_band(band_map, b)) by {
        let from = if data is Single {
            b
        } else {
            picked_band(band_map, b)
        };
        assert(whole.at(r, c, b) == data.at(cut.crop_row + r, cut.crop_col + c, from));
        assert(data.has(cut.crop_row + r, cut.crop_col + c, from));
    }
    let r = y - job.row_off;
    let c = x - job.col_off;
    law_reduced_pixel_is_mean_of_block(
        tile,
        whole,
        job.rows as int,
        job.cols as int,
        scale as nat,
        nodata,
        r,
        c,
        band,
    );
    lemma_block_lies_in_area(r, job.rows as int, scale);
    lemma_block_lies_in_area(c, job.cols as int, scale);
    lemma_block_place(y, job.row_off as int, scale);
    lemma_block_place(x, job.col_off as int, scale);
    lemma_block_means_move(
        tile.at(r, c, band),
        |i: int, j: int| whole.at(i, j, band),
        |i: int, j: int| 0 <= i < whole.row_count() && 0 <= j < whole.col_count(),
        |i: int, j: int| layer(i, j, picked_band(band_map, band)),
        |i: int, j: int| true,
        nodata,
        r * scale,
        c * scale,
        top,
        left,
        scale as nat,
    );
}

/// A pixel of an overview that the source has with the same factor is the pixel of that
/// overview as far behind the window's corner in it, in the band that is selected.
pub proof fn law_overview_pixel_is_layer_pixel<T: MeanSample>(
    layer: spec_fn(int, int, int) -> T,
    plan: OverviewSource,
    out_bands: nat,
    band_map: Option<Seq<usize>>,
    row_off: int,
    jobs: Seq<TileJob>,
    first_index: int,
    i: int,
    data: StripTile<T>,
    tile: StripTile<T>,
    method: ResamplingChoice,
    nodata: Option<T>,
    corner: (int, int),
    x: int,
    y: int,
    band: int,
)
    requires
        plan.source_layer > 0,
        plan.source_factor > 0,
        plan.layer_downsample == 1,
        plan.source_factor == plan.target_level,
        corner == layer_corner(plan),
        tiles_fit(jobs),
        0 <= first_index,
        first_index + jobs.len() <= usize::MAX,
        0 <= i < jobs.len(),
        jobs[i].row_off == row_off,
        jobs[i].rows == jobs[0].rows,
        corner.0 + jobs[i].col_off + jobs[i].cols <= usize::MAX,
        corner.1 + jobs[i].row_off + jobs[i].rows <= usize::MAX,
        band_map_usable(out_bands, band_map),
        data is Multi ==> (band_map matches Some(bands) ==> bands_positive(bands) && bands_exist(
            bands,
            data.band_count(),
        )),
        ({
            let batches = overview_batches(
                plan,
                single_band(out_bands, band_map),
                row_off,
                jobs,
                first_index,
            );
            let (read, cut) = overview_cut(plan, batches, i);
            &&& holds_read(data, read, layer)
            &&& is_overview_tile(tile, data, cut, band_map, method, nodata)
        }),
        jobs[i].col_off <= x < jobs[i].col_off + jobs[i].cols,
        jobs[i].row_off <= y < jobs[i].row_off + jobs[i].rows,
        tile.has(y - jobs[i].row_off, x - jobs[i].col_off, band),
    ensures
        tile.at(y - jobs[i].row_off, x - jobs[i].col_off, band) == layer(
            corner.1 + y,
            corner.0 + x,
            picked_band(band_map, band),
        ),
{
    let read_band = single_band(out_bands, band_map);
    let batches = overview_batches(plan, read_band, row_off, jobs, first_index);
    let (read, cut) = overview_cut(plan, batches, i);
    law_layer_cuts_are_at_their_place(plan, read_band, row_off, jobs, first_index, i, corner);
    let r = y - jobs[i].row_off;
    let c = x - jobs[i].col_off;
    let from = if data is Single {
        band
    } else {
        picked_band(band_map, band)
    };
    assert(tile.at(r, c, band) == data.at(cut.crop_row + r, cut.crop_col + c, from));
    assert(data.has(cut.crop_row + r, cut.crop_col + c, from));
}

} // verus!
