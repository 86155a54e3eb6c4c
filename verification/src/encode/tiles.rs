//! Cutting decoded windows into tiles and padding tiles to their full size.
use crate::arith::max_of;
use crate::bands::{bands_exist, bands_positive, first_missing, lemma_bands_exist_extend};
use crate::cog::grid::TileJob;
use crate::raster::{build2, build3, sample2, sample3, Grid2, Grid3};
use vstd::prelude::*;

verus! {

/// Decoded pixels of an output tile or of a source window.
#[derive(Debug)]
pub enum StripTile<T> {
    Single(Grid2<T>),
    Multi(Grid3<T>),
}

impl<T> StripTile<T> {
    /// The grid inside is well formed.
    pub open spec fn well_formed(&self) -> bool {
        match self {
            StripTile::Single(data) => data.well_formed(),
            StripTile::Multi(data) => data.well_formed(),
        }
    }

    /// How many rows there are.
    pub open spec fn row_count(&self) -> nat {
        match self {
            StripTile::Single(data) => data.rows as nat,
            StripTile::Multi(data) => data.rows as nat,
        }
    }

    /// How many columns there are.
    pub open spec fn col_count(&self) -> nat {
        match self {
            StripTile::Single(data) => data.cols as nat,
            StripTile::Multi(data) => data.cols as nat,
        }
    }

    /// How many bands there are.
    pub open spec fn band_count(&self) -> nat {
        match self {
            StripTile::Single(data) => 1,
            StripTile::Multi(data) => data.bands as nat,
        }
    }

    /// The sample of a band in column `col` of row `row`.
    pub open spec fn at(&self, row: int, col: int, band: int) -> T {
        match self {
            StripTile::Single(data) => data.at(row, col),
            StripTile::Multi(data) => data.at(row, col, band),
        }
    }

    /// Whether the sample exists.
    pub open spec fn has(&self, row: int, col: int, band: int) -> bool {
        &&& 0 <= row < self.row_count()
        &&& 0 <= col < self.col_count()
        &&& 0 <= band < self.band_count()
    }
}

/// What a [`StripTile`] holds.
pub struct TileView<T> {
    pub multi: bool,
    pub rows: nat,
    pub cols: nat,
    pub bands: nat,
    pub samples: Seq<T>,
}

impl<T> View for StripTile<T> {
    type V = TileView<T>;

    open spec fn view(&self) -> TileView<T> {
        match self {
            StripTile::Single(data) => TileView {
                multi: false,
                rows: data.rows as nat,
                cols: data.cols as nat,
                bands: 1,
                samples: data.samples@,
            },
            StripTile::Multi(data) => TileView {
                multi: true,
                rows: data.rows as nat,
                cols: data.cols as nat,
                bands: data.bands as nat,
                samples: data.samples@,
            },
        }
    }
}

/// A copy of a tile.
pub fn clone_strip_tile<T: Copy>(tile: &StripTile<T>) -> (copy: StripTile<T>)
    ensures
        copy@ == tile@,
        copy.well_formed() == tile.well_formed(),
{
    match tile {
        StripTile::Single(data) => {
            let samples: Vec<T> = copy_samples(&data.samples);
            StripTile::Single(Grid2 { rows: data.rows, cols: data.cols, samples })
        },
        StripTile::Multi(data) => {
            let samples: Vec<T> = copy_samples(&data.samples);
            StripTile::Multi(
                Grid3 { rows: data.rows, cols: data.cols, bands: data.bands, samples },
            )
        },
    }
}

fn copy_samples<T: Copy>(samples: &Vec<T>) -> (copy: Vec<T>)
    ensures
        copy@ == samples@,
{
    let mut copy: Vec<T> = Vec::new();
    let mut i: usize = 0;
    while i < samples.len()
        invariant
            i <= samples@.len(),
            copy@ == samples@.take(i as int),
        decreases samples@.len() - i,
    {
        copy.push(samples[i]);
        i = i + 1;
        assert(copy@ =~= samples@.take(i as int));
    }
    assert(samples@.take(i as int) =~= samples@);
    copy
}

/// Why a band selection is refused.
#[derive(Debug)]
pub enum BandError {
    Missing { band: usize },
    Empty,
    UnexpectedCount,
}

/// Picks bands, counted from one, in the given order. The first one that does not
/// exist is an error, and so is an empty selection.
pub fn select_bands<T: Copy>(data: &Grid3<T>, bands: &[usize]) -> (result: Result<
    Grid3<T>,
    BandError,
>)
    requires
        data.well_formed(),
        bands_positive(bands@),
        data.rows * data.cols * bands@.len() <= usize::MAX,
    ensures
        match result {
            Ok(out) => {
                &&& bands@.len() > 0
                &&& bands_exist(bands@, data.bands as nat)
                &&& out.well_formed()
                &&& out.rows == data.rows
                &&& out.cols == data.cols
                &&& out.bands == bands@.len()
                &&& forall|r: int, c: int, b: int|
                    out.has(r, c, b) ==> #[trigger] out.at(r, c, b) == data.at(
                        r,
                        c,
                        bands@[b] - 1,
                    )
            },
            Err(BandError::Missing { band }) => first_missing(bands@, data.bands as nat, band),
            Err(BandError::Empty) => bands@.len() == 0,
            Err(BandError::UnexpectedCount) => false,
        },
{
    let mut i: usize = 0;
    while i < bands.len()
        invariant
            i <= bands@.len(),
            bands_positive(bands@),
            bands_exist(bands@.take(i as int), data.bands as nat),
        decreases bands@.len() - i,
    {
        if bands[i] - 1 >= data.bands {
            return Err(BandError::Missing { band: bands[i] });
        }
        proof {
            lemma_bands_exist_extend(bands@, data.bands as nat, i as int);
        }
        i = i + 1;
    }
    assert(bands@.take(i as int) =~= bands@);
    let count: usize = bands.len();
    if count == 0 {
        return Err(BandError::Empty);
    }
    let rows: usize = data.rows;
    let cols: usize = data.cols;
    let pick = |r: usize, c: usize, b: usize| -> (value: T)
        requires
            r < rows,
            c < cols,
            b < count,
        ensures
            value == data.at(r as int, c as int, bands@[b as int] - 1),
        { data.get(r, c, bands[b] - 1) };
    let samples: Vec<T> = build3(rows, cols, count, pick);
    Ok(Grid3 { rows, cols, bands: count, samples })
}

/// A tile of one band, padded on the right and below to `tile_size` by `tile_size`.
pub fn pad_tile_2d<T: Copy>(data: &Grid2<T>, tile_size: usize, fill: T) -> (out: Vec<T>)
    requires
        data.well_formed(),
        data.rows <= tile_size,
        data.cols <= tile_size,
        tile_size * tile_size <= usize::MAX,
    ensures
        out@.len() == tile_size * tile_size,
        forall|r: int, c: int|
            0 <= r < tile_size && 0 <= c < tile_size ==> #[trigger] sample2(
                out@,
                tile_size as int,
                r,
                c,
            ) == (if data.has(r, c) {
                data.at(r, c)
            } else {
                fill
            }),
{
    let pick = |r: usize, c: usize| -> (value: T)
        requires
            r < tile_size,
            c < tile_size,
        ensures
            value == (if data.has(r as int, c as int) {
                data.at(r as int, c as int)
            } else {
                fill
            }),
        {
            if r < data.rows && c < data.cols {
                data.get(r, c)
            } else {
                fill
            }
        };
    build2(tile_size, tile_size, pick)
}

/// The first `bands` bands of a tile, padded on the right and below to `tile_size` by
/// `tile_size` pixels.
pub fn pad_tile_chunky<T: Copy>(
    data: &Grid3<T>,
    bands: usize,
    tile_size: usize,
    fill: T,
) -> (out: Vec<T>)
    requires
        data.well_formed(),
        data.rows <= tile_size,
        data.cols <= tile_size,
        bands <= data.bands,
        tile_size * tile_size * bands <= usize::MAX,
    ensures
        out@.len() == tile_size * tile_size * bands,
        forall|r: int, c: int, b: int|
            0 <= r < tile_size && 0 <= c < tile_size && 0 <= b < bands ==> #[trigger] sample3(
                out@,
                tile_size as int,
                bands as int,
                r,
                c,
                b,
            ) == (if data.has(r, c, b) {
                data.at(r, c, b)
            } else {
                fill
            }),
{
    let pick = |r: usize, c: usize, b: usize| -> (value: T)
        requires
            r < tile_size,
            c < tile_size,
            b < bands,
        ensures
            value == (if data.has(r as int, c as int, b as int) {
                data.at(r as int, c as int, b as int)
            } else {
                fill
            }),
        {
            if r < data.rows && c < data.cols {
                data.get(r, c, b)
            } else {
                fill
            }
        };
    build3(tile_size, tile_size, bands, pick)
}

/// How many bands the encoded samples of a tile interleave.
pub open spec fn encoded_bands<T>(tile: StripTile<T>, out_bands: nat) -> nat {
    match tile {
        StripTile::Single(_) => 1,
        StripTile::Multi(_) => out_bands,
    }
}

/// The samples are those of the tile, band by band for each pixel, and the filling value
/// around them up to the tile size.
pub open spec fn is_encoded_tile<T>(
    samples: Seq<T>,
    tile: StripTile<T>,
    tile_size: int,
    out_bands: nat,
    fill: T,
) -> bool {
    let bands = encoded_bands(tile, out_bands) as int;
    &&& samples.len() == tile_size * tile_size * bands
    &&& forall|r: int, c: int, b: int|
        0 <= r < tile_size && 0 <= c < tile_size && 0 <= b < bands ==> #[trigger] sample3(
            samples,
            tile_size,
            bands,
            r,
            c,
            b,
        ) == (if tile.has(r, c, b) {
            tile.at(r, c, b)
        } else {
            fill
        })
}

/// The samples that are compressed for a tile: its bands, padded to the tile size.
pub fn encode_tile_samples<T: Copy>(
    tile: &StripTile<T>,
    tile_size: usize,
    out_bands: usize,
    fill: T,
) -> (out: Vec<T>)
    requires
        tile.well_formed(),
        tile.row_count() <= tile_size,
        tile.col_count() <= tile_size,
        encoded_bands(*tile, out_bands as nat) <= tile.band_count(),
        tile_size * tile_size * encoded_bands(*tile, out_bands as nat) <= usize::MAX,
    ensures
        is_encoded_tile(out@, *tile, tile_size as int, out_bands as nat, fill),
{
    match tile {
        StripTile::Single(data) => {
            assert(tile_size * tile_size * 1 == tile_size * tile_size) by (nonlinear_arith);
            let out: Vec<T> = pad_tile_2d(data, tile_size, fill);
            proof {
                assert forall|r: int, c: int, b: int|
                    0 <= r < tile_size && 0 <= c < tile_size && 0 <= b < 1 implies #[trigger] sample3(
                    out@,
                    tile_size as int,
                    1,
                    r,
                    c,
                    b,
                ) == (if tile.has(r, c, b) {
                    tile.at(r, c, b)
                } else {
                    fill
                }) by {
                    assert((r * tile_size + c) * 1 + b == r * tile_size + c);
                    assert(sample2(out@, tile_size as int, r, c) == sample3(
                        out@,
                        tile_size as int,
                        1,
                        r,
                        c,
                        b,
                    ));
                }
            }
            out
        },
        StripTile::Multi(data) => pad_tile_chunky(data, out_bands, tile_size, fill),
    }
}

/// Cuts an output tile out of a decoded window that starts in column
/// `strip_col_start` of row `strip_row_start` of the raster; a tile that starts before
/// the window is cut from the window's edge. A window that does not have the expected
/// bands is an error.
pub fn slice_strip_tile<T: Copy>(
    strip: &StripTile<T>,
    job: &TileJob,
    strip_row_start: usize,
    strip_col_start: usize,
    out_bands: usize,
) -> (result: Result<StripTile<T>, BandError>)
    requires
        strip.well_formed(),
        max_of(job.row_off - strip_row_start, 0) + job.rows <= strip.row_count(),
        max_of(job.col_off - strip_col_start, 0) + job.cols <= strip.col_count(),
    ensures
        match result {
            Ok(tile) => {
                &&& strip is Multi ==> strip.band_count() == out_bands
                &&& tile.well_formed()
                &&& tile is Single == strip is Single
                &&& tile.row_count() == job.rows
                &&& tile.col_count() == job.cols
                &&& tile.band_count() == strip.band_count()
                &&& forall|r: int, c: int, b: int|
                    tile.has(r, c, b) ==> #[trigger] tile.at(r, c, b) == strip.at(
                        max_of(job.row_off - strip_row_start, 0) + r,
                        max_of(job.col_off - strip_col_start, 0) + c,
                        b,
                    )
            },
            Err(error) => {
                &&& error is UnexpectedCount
                &&& strip is Multi
                &&& strip.band_count() != out_bands
            },
        },
{
    let rel_row: usize = job.row_off.saturating_sub(strip_row_start);
    let rel_col: usize = job.col_off.saturating_sub(strip_col_start);
    match strip {
        StripTile::Single(data) => {
            let part: Grid2<T> = data.window(rel_row, rel_col, job.rows, job.cols);
            let tile = StripTile::Single(part);
            proof {
                assert forall|r: int, c: int, b: int| tile.has(r, c, b) implies #[trigger] tile.at(
                    r,
                    c,
                    b,
                ) == strip.at(rel_row + r, rel_col + c, b) by {
                    assert(part.has(r, c));
                }
            }
            Ok(tile)
        },
        StripTile::Multi(data) => {
            if data.bands != out_bands {
                return Err(BandError::UnexpectedCount);
            }
            let part: Grid3<T> = data.window(rel_row, rel_col, job.rows, job.cols);
            let tile = StripTile::Multi(part);
            proof {
                assert forall|r: int, c: int, b: int| tile.has(r, c, b) implies #[trigger] tile.at(
                    r,
                    c,
                    b,
                ) == strip.at(rel_row + r, rel_col + c, b) by {
                    assert(part.has(r, c, b));
                }
            }
            Ok(tile)
        },
    }
}

} // verus!
