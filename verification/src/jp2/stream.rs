//! Output tiles from the decoded parts of a JPEG 2000 image.
use crate::arith::{
    ceil_div, div_ceil, lemma_ceil_div, lemma_grid_index, lemma_mul_bound, max_of, min_of,
};
use crate::cog::grid::{overview_sizes, reduced_side};
use crate::cog::options::{overview_levels, CogOutputOptions, ResamplingChoice};
use crate::crop::WriteWindow;
use crate::encode::regions::{is_block_mean, lemma_average_is_block_mean, lemma_block_means_move};
use crate::jp2::decode::{
    halvings, law_reduction_divides_level, openjpeg_reduce, region_grid, region_of, regions, Jp2Error,
    Jp2Sample, Planes, ReducedImage, Region, TILE_SIZE,
};
use crate::jp2::profile::Jp2Raster;
use crate::raster::{build2, lemma_cell3, sample2, Grid2};
use crate::resample::{
    downsample_2d, integral_method, law_nearest_is_first_of_block, reduced_sample, MeanSample,
};
use crate::tiff::{SampleFormat, SampleKind};
use vstd::arithmetic::div_mod::lemma_fundamental_div_mod;
use vstd::prelude::*;

verus! {

/// The output tiles of a rectangle of an image.
#[derive(Debug, Clone, Copy)]
pub struct TileGrid {
    pub width: u32,
    pub height: u32,
    pub x_off: u32,
    pub y_off: u32,
    pub tile_width: usize,
    pub tile_height: usize,
    pub tiles_across: usize,
    pub tiles_down: usize,
    pub tiles_per_plane: usize,
}

impl TileGrid {
    /// The tile counts are those of the rectangle.
    pub open spec fn well_formed(&self) -> bool {
        &&& 0 < self.tile_width
        &&& 0 < self.tile_height
        &&& self.tiles_across == ceil_div(self.width as nat, self.tile_width as nat)
        &&& self.tiles_down == ceil_div(self.height as nat, self.tile_height as nat)
        &&& self.tiles_per_plane == self.tiles_across * self.tiles_down
        &&& self.x_off + self.width <= u32::MAX
        &&& self.y_off + self.height <= u32::MAX
        &&& self.tile_width * self.tile_height <= usize::MAX
    }

    pub fn new(
        width: u32,
        height: u32,
        x_off: u32,
        y_off: u32,
        tile_width: usize,
        tile_height: usize,
    ) -> (grid: TileGrid)
        requires
            tile_width > 0,
            tile_height > 0,
            tile_width * tile_height <= usize::MAX,
            x_off + width <= u32::MAX,
            y_off + height <= u32::MAX,
            ceil_div(width as nat, tile_width as nat) * ceil_div(height as nat, tile_height as nat)
                <= usize::MAX,
        ensures
            grid.well_formed(),
            grid.width == width,
            grid.height == height,
            grid.x_off == x_off,
            grid.y_off == y_off,
            grid.tile_width == tile_width,
            grid.tile_height == tile_height,
    {
        let tiles_across: usize = div_ceil(width as usize, tile_width);
        let tiles_down: usize = div_ceil(height as usize, tile_height);
        TileGrid {
            width,
            height,
            x_off,
            y_off,
            tile_width,
            tile_height,
            tiles_across,
            tiles_down,
            tiles_per_plane: tiles_across * tiles_down,
        }
    }
}

/// The uncompressed samples of an output tile of one band, and the tile's place among
/// the blocks of its layer.
#[derive(Debug)]
pub struct PlanarTile<T> {
    pub block_index: usize,
    pub samples: Vec<T>,
}

/// The first and the last tile, along one side, that a region reaches into, and the
/// position in the region where the last of them ends.
pub open spec fn tile_span(from: int, to: int, tile: int, count: int, side: int) -> (int, int, int) {
    let first = from / tile;
    let last = min_of((to - 1) / tile, count - 1);
    (first, last, min_of(last * tile + tile, side) - from)
}

/// The region lies in the rectangle, starts where a tile starts, and the planes reach
/// to the end of the last tile.
pub open spec fn packable(grid: TileGrid, region: Region, comp_w: nat, plane_len: nat) -> bool {
    let cols = tile_span(
        region.x0 - grid.x_off,
        region.x1 - grid.x_off,
        grid.tile_width as int,
        grid.tiles_across as int,
        grid.width as int,
    );
    let rows = tile_span(
        region.y0 - grid.y_off,
        region.y1 - grid.y_off,
        grid.tile_height as int,
        grid.tiles_down as int,
        grid.height as int,
    );
    &&& grid.x_off <= region.x0 < region.x1 <= grid.x_off + grid.width
    &&& grid.y_off <= region.y0 < region.y1 <= grid.y_off + grid.height
    &&& (region.x0 - grid.x_off) % (grid.tile_width as int) == 0
    &&& (region.y0 - grid.y_off) % (grid.tile_height as int) == 0
    &&& (rows.2 - 1) * comp_w + cols.2 <= plane_len
}

/// The sample of an output tile in column `c` of row `r`: that of the plane, or zero
/// behind the edge of the rectangle.
pub open spec fn packed_sample<T: Jp2Sample>(
    plane: Seq<T>,
    comp_w: int,
    grid: TileGrid,
    region: Region,
    cog_row: int,
    cog_col: int,
    r: int,
    c: int,
) -> T {
    let col = cog_col * grid.tile_width + c;
    let row = cog_row * grid.tile_height + r;
    if row < grid.height && col < grid.width {
        plane[(row + grid.y_off - region.y0) * comp_w + (col + grid.x_off - region.x0)]
    } else {
        T::zero()
    }
}

/// Whether a tile holds the samples of a band in row `cog_row` and column `cog_col` of
/// the tiles.
pub open spec fn is_packed_tile<T: Jp2Sample>(
    tile: PlanarTile<T>,
    plane: Seq<T>,
    comp_w: int,
    grid: TileGrid,
    region: Region,
    band: int,
    cog_row: int,
    cog_col: int,
) -> bool {
    &&& tile.block_index == band * grid.tiles_per_plane + cog_row * grid.tiles_across + cog_col
    &&& tile.samples@.len() == grid.tile_height * grid.tile_width
    &&& forall|r: int, c: int|
        0 <= r < grid.tile_height && 0 <= c < grid.tile_width ==> #[trigger] sample2(
            tile.samples@,
            grid.tile_width as int,
            r,
            c,
        ) == packed_sample(plane, comp_w, grid, region, cog_row, cog_col, r, c)
}

proof fn lemma_span(from: int, to: int, tile: int, count: int, side: int)
    requires
        tile > 0,
        count == ceil_div(side as nat, tile as nat),
        0 <= from < to <= side,
        from % tile == 0,
    ensures
        ({
            let span = tile_span(from, to, tile, count, side);
            &&& 0 <= span.0 <= span.1 < count
            &&& span.0 * tile == from
            &&& span.1 * tile < side
            &&& 0 < span.2
            &&& span.2 + from == min_of(span.1 * tile + tile, side)
            &&& span.1 == (to - 1) / tile
        }),
{
    lemma_ceil_div(side as nat, tile as nat);
    lemma_fundamental_div_mod(from, tile);
    lemma_fundamental_div_mod(to - 1, tile);
    let first = from / tile;
    let reach = (to - 1) / tile;
    assert(tile * first == first * tile) by (nonlinear_arith);
    assert(tile * reach == reach * tile) by (nonlinear_arith);
    assert(first <= reach) by (nonlinear_arith)
        requires
            first * tile <= to - 1,
            to - 1 < reach * tile + tile,
            tile > 0,
    ;
    assert(0 <= first) by (nonlinear_arith)
        requires
            first * tile >= 0,
            tile > 0,
    ;
    assert(reach <= count - 1) by (nonlinear_arith)
        requires
            reach * tile <= to - 1,
            to - 1 < count * tile,
            tile > 0,
    ;
    assert(reach * tile + tile > from);
}

fn pack_tile<T: Jp2Sample>(
    plane: &Vec<T>,
    comp_w: usize,
    grid: &TileGrid,
    region: &Region,
    band: usize,
    cog_row: usize,
    cog_col: usize,
) -> (tile: PlanarTile<T>)
    requires
        grid.well_formed(),
        packable(*grid, *region, comp_w as nat, plane@.len()),
        (region.x0 - grid.x_off) / grid.tile_width as int <= cog_col <= (region.x1 - grid.x_off - 1)
            / grid.tile_width as int,
        (region.y0 - grid.y_off) / grid.tile_height as int <= cog_row <= (region.y1 - grid.y_off
            - 1) / grid.tile_height as int,
        (band + 1) * grid.tiles_per_plane <= usize::MAX,
    ensures
        is_packed_tile(
            tile,
            plane@,
            comp_w as int,
            *grid,
            *region,
            band as int,
            cog_row as int,
            cog_col as int,
        ),
{
    let tw: usize = grid.tile_width;
    let th: usize = grid.tile_height;
    let ghost xspan = tile_span(
        region.x0 - grid.x_off,
        region.x1 - grid.x_off,
        tw as int,
        grid.tiles_across as int,
        grid.width as int,
    );
    let ghost yspan = tile_span(
        region.y0 - grid.y_off,
        region.y1 - grid.y_off,
        th as int,
        grid.tiles_down as int,
        grid.height as int,
    );
    let length: usize = plane.len();
    proof {
        lemma_span(
            region.x0 - grid.x_off,
            region.x1 - grid.x_off,
            tw as int,
            grid.tiles_across as int,
            grid.width as int,
        );
        lemma_span(
            region.y0 - grid.y_off,
            region.y1 - grid.y_off,
            th as int,
            grid.tiles_down as int,
            grid.height as int,
        );
        lemma_grid_index(
            cog_row as int,
            cog_col as int,
            grid.tiles_across as int,
            grid.tiles_down as int,
        );
        assert(grid.tiles_across * grid.tiles_down == grid.tiles_down * grid.tiles_across)
            by (nonlinear_arith);
        assert((band + 1) * grid.tiles_per_plane == band * grid.tiles_per_plane
            + grid.tiles_per_plane) by (nonlinear_arith);
        lemma_mul_bound(
            band as int,
            grid.tiles_per_plane as int,
            band + 1,
            grid.tiles_per_plane as int,
        );
        lemma_mul_bound(
            cog_row as int,
            grid.tiles_across as int,
            grid.tiles_down as int,
            grid.tiles_across as int,
        );
        lemma_mul_bound(xspan.0, tw as int, cog_col as int, tw as int);
        lemma_mul_bound(cog_col as int, tw as int, xspan.1, tw as int);
        lemma_mul_bound(yspan.0, th as int, cog_row as int, th as int);
        lemma_mul_bound(cog_row as int, th as int, yspan.1, th as int);
        assert(th * tw == tw * th) by (nonlinear_arith);
    }
    let col_off: usize = cog_col * tw;
    let row_off: usize = cog_row * th;
    let cols: usize = if grid.width as usize - col_off < tw {
        grid.width as usize - col_off
    } else {
        tw
    };
    let rows: usize = if grid.height as usize - row_off < th {
        grid.height as usize - row_off
    } else {
        th
    };
    let local_col: usize = col_off - (region.x0 - grid.x_off) as usize;
    let local_row: usize = row_off - (region.y0 - grid.y_off) as usize;
    proof {
        assert(local_col + cols <= xspan.2) by {
            assert(cog_col * tw <= xspan.1 * tw);
        }
        assert(local_row + rows <= yspan.2) by {
            assert(cog_row * th <= yspan.1 * th);
        }
    }
    let pick = |r: usize, c: usize| -> (value: T)
        requires
            r < th,
            c < tw,
        ensures
            value == packed_sample(
                plane@,
                comp_w as int,
                *grid,
                *region,
                cog_row as int,
                cog_col as int,
                r as int,
                c as int,
            ),
        {
            if r < rows && c < cols {
                proof {
                    let line = local_row + r;
                    assert(line * comp_w <= (yspan.2 - 1) * comp_w) by (nonlinear_arith)
                        requires
                            line <= yspan.2 - 1,
                            comp_w >= 0,
                    ;
                    lemma_mul_bound(line as int, comp_w as int, line as int, comp_w as int);
                }
                plane[(local_row + r) * comp_w + (local_col + c)]
            } else {
                T::fill()
            }
        };
    let samples: Vec<T> = build2(th, tw, pick);
    let block_index: usize = band * grid.tiles_per_plane + cog_row * grid.tiles_across + cog_col;
    PlanarTile { block_index, samples }
}

/// The tiles that a region reaches into: band by band, row by row.
pub fn pack_region<T: Jp2Sample>(planes: &Planes<T>, region: &Region, grid: &TileGrid) -> (tiles:
    Vec<PlanarTile<T>>)
    requires
        grid.well_formed(),
        forall|i: int|
            0 <= i < planes.planes@.len() ==> packable(
                *grid,
                *region,
                planes.width as nat,
                (#[trigger] planes.planes@[i])@.len(),
            ),
        planes.planes@.len() * grid.tiles_per_plane <= usize::MAX,
    ensures
        planes.planes@.len() == 0 ==> tiles@.len() == 0,
        planes.planes@.len() > 0 ==> ({
            let cols = tile_span(
                region.x0 - grid.x_off,
                region.x1 - grid.x_off,
                grid.tile_width as int,
                grid.tiles_across as int,
                grid.width as int,
            );
            let rows = tile_span(
                region.y0 - grid.y_off,
                region.y1 - grid.y_off,
                grid.tile_height as int,
                grid.tiles_down as int,
                grid.height as int,
            );
            let per_row = cols.1 - cols.0 + 1;
            let per_band = rows.1 - rows.0 + 1;
            &&& tiles@.len() == planes.planes@.len() * per_band * per_row
            &&& forall|k: int|
                0 <= k < tiles@.len() ==> is_packed_tile(
                    #[trigger] tiles@[k],
                    planes.planes@[k / per_row / per_band]@,
                    planes.width as int,
                    *grid,
                    *region,
                    k / per_row / per_band,
                    rows.0 + k / per_row % per_band,
                    cols.0 + k % per_row,
                )
        }),
{
    let mut tiles: Vec<PlanarTile<T>> = Vec::new();
    let bands: usize = planes.planes.len();
    if bands == 0 {
        return tiles;
    }
    let tw: usize = grid.tile_width;
    let th: usize = grid.tile_height;
    let ghost xspan = tile_span(
        region.x0 - grid.x_off,
        region.x1 - grid.x_off,
        tw as int,
        grid.tiles_across as int,
        grid.width as int,
    );
    let ghost yspan = tile_span(
        region.y0 - grid.y_off,
        region.y1 - grid.y_off,
        th as int,
        grid.tiles_down as int,
        grid.height as int,
    );
    proof {
        assert(packable(*grid, *region, planes.width as nat, planes.planes@[0]@.len()));
        lemma_span(
            region.x0 - grid.x_off,
            region.x1 - grid.x_off,
            tw as int,
            grid.tiles_across as int,
            grid.width as int,
        );
        lemma_span(
            region.y0 - grid.y_off,
            region.y1 - grid.y_off,
            th as int,
            grid.tiles_down as int,
            grid.height as int,
        );
    }
    let first_col: usize = (region.x0 - grid.x_off) as usize / tw;
    let last_col: usize = (region.x1 - grid.x_off - 1) as usize / tw;
    let first_row: usize = (region.y0 - grid.y_off) as usize / th;
    let last_row: usize = (region.y1 - grid.y_off - 1) as usize / th;
    let per_row: usize = last_col - first_col + 1;
    let per_band: usize = last_row - first_row + 1;
    let mut band: usize = 0;
    assert(0 * per_band * per_row == 0) by (nonlinear_arith);
    while band < bands
        invariant
            band <= bands,
            bands == planes.planes@.len(),
            grid.well_formed(),
            tw == grid.tile_width,
            th == grid.tile_height,
            bands * grid.tiles_per_plane <= usize::MAX,
            forall|i: int|
                0 <= i < planes.planes@.len() ==> packable(
                    *grid,
                    *region,
                    planes.width as nat,
                    (#[trigger] planes.planes@[i])@.len(),
                ),
            first_col == (region.x0 - grid.x_off) / tw as int,
            last_col == (region.x1 - grid.x_off - 1) / tw as int,
            first_row == (region.y0 - grid.y_off) / th as int,
            last_row == (region.y1 - grid.y_off - 1) / th as int,
            per_row == last_col - first_col + 1,
            per_band == last_row - first_row + 1,
            tiles@.len() == band * per_band * per_row,
            forall|k: int|
                0 <= k < tiles@.len() ==> is_packed_tile(
                    #[trigger] tiles@[k],
                    planes.planes@[k / per_row as int / per_band as int]@,
                    planes.width as int,
                    *grid,
                    *region,
                    k / per_row as int / per_band as int,
                    first_row + k / per_row as int % per_band as int,
                    first_col + k % per_row as int,
                ),
        decreases bands - band,
    {
        let mut row: usize = 0;
        assert(band * per_band * per_row == (band * per_band + 0) * per_row);
        proof {
            assert((band + 1) * grid.tiles_per_plane <= bands * grid.tiles_per_plane)
                by (nonlinear_arith)
                requires
                    band + 1 <= bands,
                    grid.tiles_per_plane >= 0,
            ;
        }
        while row < per_band
            invariant
                band < bands,
                row <= per_band,
                bands == planes.planes@.len(),
                grid.well_formed(),
                tw == grid.tile_width,
                th == grid.tile_height,
                (band + 1) * grid.tiles_per_plane <= usize::MAX,
                forall|i: int|
                    0 <= i < planes.planes@.len() ==> packable(
                        *grid,
                        *region,
                        planes.width as nat,
                        (#[trigger] planes.planes@[i])@.len(),
                    ),
                first_col == (region.x0 - grid.x_off) / tw as int,
                last_col == (region.x1 - grid.x_off - 1) / tw as int,
                first_row == (region.y0 - grid.y_off) / th as int,
                last_row == (region.y1 - grid.y_off - 1) / th as int,
                per_row == last_col - first_col + 1,
                per_band == last_row - first_row + 1,
                tiles@.len() == (band * per_band + row) * per_row,
                forall|k: int|
                    0 <= k < tiles@.len() ==> is_packed_tile(
                        #[trigger] tiles@[k],
                        planes.planes@[k / per_row as int / per_band as int]@,
                        planes.width as int,
                        *grid,
                        *region,
                        k / per_row as int / per_band as int,
                        first_row + k / per_row as int % per_band as int,
                        first_col + k % per_row as int,
                    ),
            decreases per_band - row,
        {
            let mut col: usize = 0;
            while col < per_row
                invariant
                    band < bands,
                    row < per_band,
                    col <= per_row,
                    bands == planes.planes@.len(),
                    grid.well_formed(),
                    tw == grid.tile_width,
                    th == grid.tile_height,
                    (band + 1) * grid.tiles_per_plane <= usize::MAX,
                    forall|i: int|
                        0 <= i < planes.planes@.len() ==> packable(
                            *grid,
                            *region,
                            planes.width as nat,
                            (#[trigger] planes.planes@[i])@.len(),
                        ),
                    first_col == (region.x0 - grid.x_off) / tw as int,
                    last_col == (region.x1 - grid.x_off - 1) / tw as int,
                    first_row == (region.y0 - grid.y_off) / th as int,
                    last_row == (region.y1 - grid.y_off - 1) / th as int,
                    per_row == last_col - first_col + 1,
                    per_band == last_row - first_row + 1,
                    tiles@.len() == (band * per_band + row) * per_row + col,
                    forall|k: int|
                        0 <= k < tiles@.len() ==> is_packed_tile(
                            #[trigger] tiles@[k],
                            planes.planes@[k / per_row as int / per_band as int]@,
                            planes.width as int,
                            *grid,
                            *region,
                            k / per_row as int / per_band as int,
                            first_row + k / per_row as int % per_band as int,
                            first_col + k % per_row as int,
                        ),
                decreases per_row - col,
            {
                proof {
                    lemma_cell3(
                        bands as int,
                        per_band as int,
                        per_row as int,
                        band as int,
                        row as int,
                        col as int,
                    );
                }
                let tile: PlanarTile<T> = pack_tile(
                    &planes.planes[band],
                    planes.width,
                    grid,
                    region,
                    band,
                    first_row + row,
                    first_col + col,
                );
                tiles.push(tile);
                col = col + 1;
            }
            proof {
                assert((band * per_band + (row + 1)) * per_row == (band * per_band + row) * per_row
                    + per_row) by (nonlinear_arith);
            }
            row = row + 1;
        }
        proof {
            assert((band + 1) * per_band * per_row == (band * per_band + per_band) * per_row)
                by (nonlinear_arith);
        }
        band = band + 1;
    }
    tiles
}

/// The machine type of the samples of an image: bytes for 8 bits, two bytes for 12 and
/// 16 bits.
pub open spec fn jp2_kind_of(raster: Jp2Raster) -> Result<SampleKind, Jp2Error> {
    let bits = raster.bits_per_sample;
    if raster.sample_format == SampleFormat::Float || (bits != 8 && bits != 12 && bits != 16) {
        Err(Jp2Error::UnsupportedLayout)
    } else if bits == 8 {
        Ok(
            if raster.sample_format == SampleFormat::Uint {
                SampleKind::U8
            } else {
                SampleKind::I8
            },
        )
    } else {
        Ok(
            if raster.sample_format == SampleFormat::Uint {
                SampleKind::U16
            } else {
                SampleKind::I16
            },
        )
    }
}

/// The machine type of the samples of an image.
pub fn jp2_sample_kind(raster: &Jp2Raster) -> (result: Result<SampleKind, Jp2Error>)
    ensures
        result == jp2_kind_of(*raster),
{
    match (raster.bits_per_sample, raster.sample_format) {
        (8, SampleFormat::Uint) => Ok(SampleKind::U8),
        (8, SampleFormat::Int) => Ok(SampleKind::I8),
        (12, SampleFormat::Uint) => Ok(SampleKind::U16),
        (16, SampleFormat::Uint) => Ok(SampleKind::U16),
        (12, SampleFormat::Int) => Ok(SampleKind::I16),
        (16, SampleFormat::Int) => Ok(SampleKind::I16),
        _ => Err(Jp2Error::UnsupportedLayout),
    }
}

/// The rectangle of the image that is converted: width, height, first column and first
/// row.
pub fn output_geometry(raster: &Jp2Raster, window: Option<WriteWindow>) -> (rect: (
    u32,
    u32,
    u32,
    u32,
))
    requires
        window matches Some(w) ==> w.width <= u32::MAX && w.height <= u32::MAX && w.col_off
            <= u32::MAX && w.row_off <= u32::MAX,
    ensures
        match window {
            None => rect == (raster.width, raster.height, 0u32, 0u32),
            Some(w) => rect.0 == w.width && rect.1 == w.height && rect.2 == w.col_off && rect.3
                == w.row_off,
        },
{
    match window {
        None => (raster.width, raster.height, 0, 0),
        Some(w) => (w.width as u32, w.height as u32, w.col_off as u32, w.row_off as u32),
    }
}

/// The layers of a conversion: the decimation factors of the overviews, their sizes,
/// and the regions that the full-size layer is decoded in.
#[derive(Debug)]
pub struct Jp2Plan {
    pub levels: Vec<u32>,
    pub sizes: Vec<(usize, usize)>,
    pub regions: Vec<Region>,
}

/// Plans the layers of a conversion.
pub fn plan_conversion(
    opts: &CogOutputOptions,
    width: u32,
    height: u32,
    x_off: u32,
    y_off: u32,
) -> (plan: Jp2Plan)
    requires
        x_off + width <= u32::MAX,
        y_off + height <= u32::MAX,
        opts.overview_levels matches Some(listed) ==> forall|i: int|
            0 <= i < listed@.len() ==> #[trigger] listed@[i] > 0,
    ensures
        opts.are_overview_levels(width, height, plan.levels@),
        plan.sizes@.len() == plan.levels@.len(),
        forall|i: int|
            0 <= i < plan.sizes@.len() ==> {
                &&& (#[trigger] plan.sizes@[i]).0 == reduced_side(
                    width as nat,
                    plan.levels@[i] as nat,
                )
                &&& plan.sizes@[i].1 == reduced_side(height as nat, plan.levels@[i] as nat)
            },
        plan.regions@ == region_grid(x_off as nat, y_off as nat, width as nat, height as nat),
{
    let levels: Vec<u32> = overview_levels(opts, width, height);
    proof {
        assert forall|i: int| 0 <= i < levels@.len() implies #[trigger] levels@[i] > 0 by {
            if !opts.no_overviews && opts.overview_levels is None {
                vstd::arithmetic::power2::lemma_pow2_pos((i + 1) as nat);
            }
        }
    }
    let sizes: Vec<(usize, usize)> = overview_sizes(width, height, levels.as_slice());
    Jp2Plan { levels, sizes, regions: regions(width, height, x_off, y_off) }
}

/// How an overview is made from an image that is reduced while it is decoded: how often
/// the decoder halves it, the size that it is then brought to, and whether it has to be
/// reduced further for that.
#[derive(Debug, Clone, Copy, PartialEq, Eq, Structural)]
pub struct OverviewReduction {
    pub reduce: u32,
    pub target_width: usize,
    pub target_height: usize,
    pub resample: bool,
}

/// Plans an overview of an image.
pub fn overview_reduction(full_width: u32, full_height: u32, level: u32) -> (reduction:
    OverviewReduction)
    requires
        level > 0,
    ensures
        reduction.reduce == halvings(level as nat),
        reduction.target_width == reduced_side(full_width as nat, level as nat),
        reduction.target_height == reduced_side(full_height as nat, level as nat),
        reduction.resample == (vstd::arithmetic::power2::pow2(halvings(level as nat)) < level),
{
    let reduce: u32 = openjpeg_reduce(level);
    proof {
        law_reduction_divides_level(level as nat);
        vstd::arithmetic::power2::lemma2_to64();
    }
    let decoded_factor: u32 = if reduce == 0 {
        1
    } else if reduce == 1 {
        2
    } else if reduce == 2 {
        4
    } else if reduce == 3 {
        8
    } else {
        16
    };
    let w: u32 = full_width / level;
    let h: u32 = full_height / level;
    OverviewReduction {
        reduce,
        target_width: if w < 1 {
            1
        } else {
            w as usize
        },
        target_height: if h < 1 {
            1
        } else {
            h as usize
        },
        resample: decoded_factor < level,
    }
}

/// By how much an image is reduced to reach a size: the larger of the two ratios,
/// rounded up, and at least one.
pub open spec fn fitting_scale(width: nat, height: nat, target_w: nat, target_h: nat) -> int {
    max_of(
        max_of(ceil_div(width, target_w) as int, 1),
        max_of(ceil_div(height, target_h) as int, 1),
    )
}

/// Whether `reduced` is a plane of `width` columns, reduced to `target_w` columns.
pub open spec fn plane_reduced<T: MeanSample>(
    reduced: Seq<T>,
    plane: Seq<T>,
    size: (int, int),
    target: (int, int),
    scale: int,
    method: ResamplingChoice,
) -> bool {
    exists|grid: Grid2<T>|
        {
            &&& #[trigger] grid.well_formed()
            &&& grid.samples@ == plane
            &&& grid.cols == size.0
            &&& grid.rows == size.1
            &&& reduced.len() == target.1 * target.0
            &&& forall|r: int, c: int|
                0 <= r < target.1 && 0 <= c < target.0 ==> #[trigger] sample2(
                    reduced,
                    target.0,
                    r,
                    c,
                ) == reduced_sample(grid, r, c, scale, method, None)
        }
}

/// A sample can be taken for every cell: where each is the nearest one, the first plane
/// that is reduced is not empty.
pub open spec fn has_samples<T>(planes: Seq<Vec<T>>, method: ResamplingChoice) -> bool {
    method == ResamplingChoice::Nearest && planes.len() > 0 ==> planes[0]@.len() > 0
}

/// Brings the planes of an image to a smaller size by a method that works on integers;
/// none where the method weighs the samples by fractions. A plane that does not have
/// the image's size is an error.
pub fn downsample_planes<T: Jp2Sample + MeanSample>(
    planes: &Planes<T>,
    width: usize,
    height: usize,
    target_w: usize,
    target_h: usize,
    resampling: ResamplingChoice,
) -> (result: Result<Option<Planes<T>>, Jp2Error>)
    requires
        0 < target_w,
        0 < target_h,
        width == 0 || height == 0 ==> has_samples(planes.planes@, resampling),
        target_h * target_w <= usize::MAX,
        target_w * fitting_scale(
            width as nat,
            height as nat,
            target_w as nat,
            target_h as nat,
        ) <= usize::MAX,
        target_h * fitting_scale(
            width as nat,
            height as nat,
            target_w as nat,
            target_h as nat,
        ) <= usize::MAX,
    ensures
        match result {
            Err(error) => {
                &&& error == Jp2Error::PlaneShape
                &&& !integral_method(resampling) ==> planes.planes@[0]@.len() != height * width
                &&& exists|i: int|
                    0 <= i < planes.planes@.len() && (#[trigger] planes.planes@[i])@.len() != height
                        * width
            },
            Ok(None) => {
                &&& !integral_method(resampling)
                &&& planes.planes@.len() > 0
                &&& planes.planes@[0]@.len() == height * width
            },
            Ok(Some(out)) => {
                &&& out.width == target_w
                &&& out.planes@.len() == planes.planes@.len()
                &&& planes.planes@.len() > 0 ==> integral_method(resampling)
                &&& forall|i: int|
                    0 <= i < out.planes@.len() ==> plane_reduced(
                        (#[trigger] out.planes@[i])@,
                        planes.planes@[i]@,
                        (width as int, height as int),
                        (target_w as int, target_h as int),
                        fitting_scale(
                            width as nat,
                            height as nat,
                            target_w as nat,
                            target_h as nat,
                        ),
                        resampling,
                    )
            },
        },
{
    let scale_x: usize = div_ceil(width, target_w);
    let scale_y: usize = div_ceil(height, target_h);
    proof {
        lemma_ceil_div(width as nat, target_w as nat);
        lemma_ceil_div(height as nat, target_h as nat);
    }
    let scale: usize = if scale_x >= scale_y {
        scale_x
    } else {
        scale_y
    };
    let scale: usize = if scale > 0 {
        scale
    } else {
        1
    };
    let ghost factor = fitting_scale(
        width as nat,
        height as nat,
        target_w as nat,
        target_h as nat,
    );
    assert(scale == factor);
    let mut out: Vec<Vec<T>> = Vec::new();
    let mut i: usize = 0;
    while i < planes.planes.len()
        invariant
            i <= planes.planes@.len(),
            0 < target_w,
            0 < target_h,
            width == 0 || height == 0 ==> has_samples(planes.planes@, resampling),
            i > 0 ==> planes.planes@[0]@.len() == height * width,
            target_h * target_w <= usize::MAX,
            target_w * scale <= usize::MAX,
            target_h * scale <= usize::MAX,
            scale == factor,
            out@.len() == i,
            i > 0 ==> integral_method(resampling),
            forall|k: int|
                0 <= k < out@.len() ==> plane_reduced(
                    (#[trigger] out@[k])@,
                    planes.planes@[k]@,
                    (width as int, height as int),
                    (target_w as int, target_h as int),
                    factor,
                    resampling,
                ),
        decreases planes.planes@.len() - i,
    {
        let samples: Vec<T> = vstd::slice::slice_to_vec(planes.planes[i].as_slice());
        let length: usize = samples.len();
        let fits: bool = match height.checked_mul(width) {
            Some(cells) => cells == length,
            None => false,
        };
        if !fits {
            assert(planes.planes@[i as int]@.len() != height * width);
            return Err(Jp2Error::PlaneShape);
        }
        let grid: Grid2<T> = Grid2 { rows: height, cols: width, samples };
        proof {
            assert(width == 0 || height == 0 ==> height * width == 0) by (nonlinear_arith);
        }
        match downsample_2d(&grid, target_h, target_w, scale, resampling, None) {
            None => {
                return Ok(None);
            },
            Some(reduced) => {
                proof {
                    let plane = reduced.samples@;
                    assert forall|r: int, c: int|
                        0 <= r < target_h && 0 <= c < target_w implies #[trigger] sample2(
                        plane,
                        target_w as int,
                        r,
                        c,
                    ) == reduced_sample(grid, r, c, factor, resampling, None) by {
                        assert(reduced.has(r, c));
                        assert(reduced.at(r, c) == sample2(plane, target_w as int, r, c));
                    }
                    assert(grid.well_formed());
                    assert(plane_reduced(
                        plane,
                        planes.planes@[i as int]@,
                        (width as int, height as int),
                        (target_w as int, target_h as int),
                        factor,
                        resampling,
                    ));
                }
                out.push(reduced.samples);
            },
        }
        i = i + 1;
    }
    Ok(Some(Planes { planes: out, width: target_w }))
}

/// Brings an image that was reduced while it was decoded to the size of the overview;
/// none where the method weighs the samples by fractions.
pub fn fit_overview<T: Jp2Sample + MeanSample>(
    image: ReducedImage<T>,
    reduction: &OverviewReduction,
    resampling: ResamplingChoice,
) -> (result: Result<Option<ReducedImage<T>>, Jp2Error>)
    requires
        0 < reduction.target_width,
        0 < reduction.target_height,
        reduction.target_height * reduction.target_width <= usize::MAX,
        reduction.resample && (image.width == 0 || image.height == 0) ==> has_samples(
            image.planes.planes@,
            resampling,
        ),
        reduction.resample ==> ({
            let scale = fitting_scale(
                image.width as nat,
                image.height as nat,
                reduction.target_width as nat,
                reduction.target_height as nat,
            );
            &&& reduction.target_width * scale <= usize::MAX
            &&& reduction.target_height * scale <= usize::MAX
        }),
    ensures
        !reduction.resample ==> result == Ok::<Option<ReducedImage<T>>, Jp2Error>(Some(image)),
        reduction.resample ==> match result {
            Err(error) => {
                &&& error == Jp2Error::PlaneShape
                &&& !integral_method(resampling) ==> image.planes.planes@[0]@.len()
                    != image.height * image.width
                &&& exists|i: int|
                    0 <= i < image.planes.planes@.len() && (
                    #[trigger] image.planes.planes@[i])@.len() != image.height * image.width
            },
            Ok(None) => {
                &&& !integral_method(resampling)
                &&& image.planes.planes@.len() > 0
                &&& image.planes.planes@[0]@.len() == image.height * image.width
            },
            Ok(Some(out)) => {
                &&& out.width == reduction.target_width
                &&& out.height == reduction.target_height
                &&& out.planes.width == reduction.target_width
                &&& out.planes.planes@.len() == image.planes.planes@.len()
                &&& forall|i: int|
                    0 <= i < out.planes.planes@.len() ==> plane_reduced(
                        (#[trigger] out.planes.planes@[i])@,
                        image.planes.planes@[i]@,
                        (image.width as int, image.height as int),
                        (reduction.target_width as int, reduction.target_height as int),
                        fitting_scale(
                            image.width as nat,
                            image.height as nat,
                            reduction.target_width as nat,
                            reduction.target_height as nat,
                        ),
                        resampling,
                    )
            },
        },
{
    if !reduction.resample {
        return Ok(Some(image));
    }
    match downsample_planes(
        &image.planes,
        image.width,
        image.height,
        reduction.target_width,
        reduction.target_height,
        resampling,
    ) {
        Err(error) => Err(error),
        Ok(None) => Ok(None),
        Ok(Some(planes)) => Ok(
            Some(
                ReducedImage {
                    width: reduction.target_width,
                    height: reduction.target_height,
                    planes,
                },
            ),
        ),
    }
}

proof fn lemma_whole_span(side: int, tile: int)
    requires
        0 < side,
        0 < tile,
    ensures
        tile_span(0, side, tile, ceil_div(side as nat, tile as nat) as int, side) == (
            0int,
            ceil_div(side as nat, tile as nat) - 1,
            side,
        ),
{
    let count = ceil_div(side as nat, tile as nat) as int;
    lemma_ceil_div(side as nat, tile as nat);
    vstd::arithmetic::div_mod::lemma_fundamental_div_mod_converse(0, tile, 0, 0);
    lemma_span(0, side, tile, count, side);
    let last = (side - 1) / tile;
    lemma_fundamental_div_mod(side - 1, tile);
    assert(tile * last == last * tile) by (nonlinear_arith);
    assert(last == count - 1) by (nonlinear_arith)
        requires
            0 < tile,
            last <= count - 1,
            side - 1 < last * tile + tile,
            (count - 1) * tile < side,
    ;
}

/// The tiles of a whole layer: band by band, row by row. A plane that is too short for
/// the layer's size is an error.
pub fn pack_planes<T: Jp2Sample>(planes: &Planes<T>, grid: &TileGrid) -> (result: Result<
    Vec<PlanarTile<T>>,
    Jp2Error,
>)
    requires
        grid.well_formed(),
        grid.x_off == 0,
        grid.y_off == 0,
        0 < grid.width,
        0 < grid.height,
        planes.planes@.len() * grid.tiles_per_plane <= usize::MAX,
    ensures
        match result {
            Err(error) => {
                &&& error == Jp2Error::PlaneShape
                &&& exists|i: int|
                    0 <= i < planes.planes@.len() && (#[trigger] planes.planes@[i])@.len() < (
                    grid.height - 1) * planes.width + grid.width
            },
            Ok(tiles) => {
                &&& tiles@.len() == planes.planes@.len() * grid.tiles_down * grid.tiles_across
                &&& forall|k: int|
                    0 <= k < tiles@.len() ==> is_packed_tile(
                        #[trigger] tiles@[k],
                        planes.planes@[k / grid.tiles_across as int / grid.tiles_down as int]@,
                        planes.width as int,
                        *grid,
                        (Region { x0: 0, y0: 0, x1: grid.width, y1: grid.height }),
                        k / grid.tiles_across as int / grid.tiles_down as int,
                        k / grid.tiles_across as int % grid.tiles_down as int,
                        k % grid.tiles_across as int,
                    )
            },
        },
{
    let ghost needed = (grid.height - 1) * planes.width + grid.width;
    proof {
        lemma_mul_bound(
            grid.height - 1,
            planes.width as int,
            4294967295,
            18446744073709551615,
        );
    }
    let wanted: u128 = (grid.height as u128 - 1) * planes.width as u128 + grid.width as u128;
    let mut i: usize = 0;
    while i < planes.planes.len()
        invariant
            i <= planes.planes@.len(),
            wanted == needed,
            forall|k: int| 0 <= k < i ==> (#[trigger] planes.planes@[k])@.len() >= needed,
            needed == (grid.height - 1) * planes.width + grid.width,
        decreases planes.planes@.len() - i,
    {
        let length: usize = planes.planes[i].len();
        if (length as u128) < wanted {
            return Err(Jp2Error::PlaneShape);
        }
        i = i + 1;
    }
    let region = Region { x0: 0, y0: 0, x1: grid.width, y1: grid.height };
    proof {
        lemma_whole_span(grid.width as int, grid.tile_width as int);
        lemma_whole_span(grid.height as int, grid.tile_height as int);
        vstd::arithmetic::div_mod::lemma_fundamental_div_mod_converse(
            0,
            grid.tile_width as int,
            0,
            0,
        );
        vstd::arithmetic::div_mod::lemma_fundamental_div_mod_converse(
            0,
            grid.tile_height as int,
            0,
            0,
        );
        assert forall|k: int| 0 <= k < planes.planes@.len() implies packable(
            *grid,
            region,
            planes.width as nat,
            (#[trigger] planes.planes@[k])@.len(),
        ) by {}
        assert(0 * grid.tiles_down * grid.tiles_across == 0) by (nonlinear_arith);
    }
    Ok(pack_region(planes, &region, grid))
}

/// Along one side, a region of the decoder starts where a tile starts, and where the
/// rectangle does not end it ends where a tile ends, if the tile size divides the size
/// of the regions.
proof fn lemma_aligned_side(side: int, tile: int, index: int, k: int)
    requires
        0 < tile,
        TILE_SIZE as int % tile == 0,
        0 <= index < ceil_div(side as nat, TILE_SIZE as nat),
        0 <= k < ceil_div(side as nat, tile as nat),
        0 < side,
    ensures
        ({
            let from = index * TILE_SIZE;
            let to = min_of(from + TILE_SIZE, side);
            let per_region = TILE_SIZE as int / tile;
            let span = tile_span(from, to, tile, ceil_div(side as nat, tile as nat) as int, side);
            &&& 0 <= from < to <= side
            &&& from % tile == 0
            &&& span.0 == index * per_region
            &&& span.2 == to - from
            &&& per_region > 0
            &&& (span.0 <= k <= span.1) <==> (k / per_region == index)
        }),
{
    let size = TILE_SIZE as int;
    let per_region = size / tile;
    let count = ceil_div(side as nat, tile as nat) as int;
    lemma_ceil_div(side as nat, TILE_SIZE as nat);
    lemma_ceil_div(side as nat, tile as nat);
    lemma_fundamental_div_mod(size, tile);
    assert(size == per_region * tile) by (nonlinear_arith)
        requires
            size == tile * per_region,
    ;
    assert(per_region > 0) by (nonlinear_arith)
        requires
            size == per_region * tile,
            size > 0,
            tile > 0,
    ;
    let from = index * size;
    let to = min_of(from + size, side);
    let regions = ceil_div(side as nat, TILE_SIZE as nat) as int;
    assert(index * size <= (regions - 1) * size) by (nonlinear_arith)
        requires
            index <= regions - 1,
            size > 0,
    ;
    let first = index * per_region;
    assert(from == first * tile) by (nonlinear_arith)
        requires
            from == index * size,
            size == per_region * tile,
            first == index * per_region,
    ;
    vstd::arithmetic::div_mod::lemma_fundamental_div_mod_converse(from, tile, first, 0);
    lemma_span(from, to, tile, count, side);
    let span = tile_span(from, to, tile, count, side);
    lemma_fundamental_div_mod(to - 1, tile);
    let last = (to - 1) / tile;
    assert(tile * last == last * tile) by (nonlinear_arith);
    assert(from + size == (first + per_region) * tile) by (nonlinear_arith)
        requires
            from == first * tile,
            size == per_region * tile,
    ;
    if from + size <= side {
        assert(last == first + per_region - 1) by (nonlinear_arith)
            requires
                tile > 0,
                last * tile <= (first + per_region) * tile - 1,
                (first + per_region) * tile - 1 < last * tile + tile,
        ;
        assert(last * tile + tile == from + size) by (nonlinear_arith)
            requires
                last == first + per_region - 1,
                from + size == (first + per_region) * tile,
        ;
    } else {
        assert(last * tile + tile >= side);
    }
    lemma_fundamental_div_mod(k, per_region);
    let q = k / per_region;
    assert(per_region * q == q * per_region) by (nonlinear_arith);
    assert((count - 1) * tile < side);
    if from + size > side {
        assert(k <= last) by (nonlinear_arith)
            requires
                tile > 0,
                k <= count - 1,
                (count - 1) * tile < side,
                side <= last * tile + tile,
        ;
        assert(last < first + per_region) by (nonlinear_arith)
            requires
                tile > 0,
                last * tile < side,
                side < (first + per_region) * tile,
        ;
    }
    if q == index {
        assert(q * per_region == index * per_region);
    }
    if first <= k && k < first + per_region {
        assert(q == index) by (nonlinear_arith)
            requires
                per_region > 0,
                q * per_region <= k,
                k < q * per_region + per_region,
                index * per_region <= k,
                k < index * per_region + per_region,
        ;
    }
}

/// Where the tile size divides the size of the decoder's regions, every region can be
/// packed, and every tile is packed from exactly one region: the one that holds it.
pub proof fn law_each_tile_packed_once(grid: TileGrid, index: int, cog_row: int, cog_col: int)
    requires
        grid.well_formed(),
        0 < grid.width,
        0 < grid.height,
        TILE_SIZE as int % grid.tile_width as int == 0,
        TILE_SIZE as int % grid.tile_height as int == 0,
        0 <= index < region_grid(
            grid.x_off as nat,
            grid.y_off as nat,
            grid.width as nat,
            grid.height as nat,
        ).len(),
        0 <= cog_row < grid.tiles_down,
        0 <= cog_col < grid.tiles_across,
    ensures
        ({
            let region = region_grid(
                grid.x_off as nat,
                grid.y_off as nat,
                grid.width as nat,
                grid.height as nat,
            )[index];
            let cols = tile_span(
                region.x0 - grid.x_off,
                region.x1 - grid.x_off,
                grid.tile_width as int,
                grid.tiles_across as int,
                grid.width as int,
            );
            let rows = tile_span(
                region.y0 - grid.y_off,
                region.y1 - grid.y_off,
                grid.tile_height as int,
                grid.tiles_down as int,
                grid.height as int,
            );
            let home = cog_row / (TILE_SIZE as int / grid.tile_height as int) * ceil_div(
                grid.width as nat,
                TILE_SIZE as nat,
            ) + cog_col / (TILE_SIZE as int / grid.tile_width as int);
            &&& packable(
                grid,
                region,
                (region.x1 - region.x0) as nat,
                ((region.y1 - region.y0) * (region.x1 - region.x0)) as nat,
            )
            &&& (rows.0 <= cog_row <= rows.1 && cols.0 <= cog_col <= cols.1) <==> index == home
        }),
{
    let across = ceil_div(grid.width as nat, TILE_SIZE as nat) as int;
    let down = ceil_div(grid.height as nat, TILE_SIZE as nat) as int;
    crate::arith::lemma_grid_split(index, across, down);
    let row = index / across;
    let col = index % across;
    lemma_aligned_side(grid.width as int, grid.tile_width as int, col, cog_col);
    lemma_aligned_side(grid.height as int, grid.tile_height as int, row, cog_row);
    let region = region_of(
        grid.x_off as nat,
        grid.y_off as nat,
        grid.width as nat,
        grid.height as nat,
        row,
        col,
    );
    let w = region.x1 - region.x0;
    let h = region.y1 - region.y0;
    assert((h - 1) * w + w == h * w) by (nonlinear_arith);
    let home_row = cog_row / (TILE_SIZE as int / grid.tile_height as int);
    let home_col = cog_col / (TILE_SIZE as int / grid.tile_width as int);
    if home_row * across + home_col == index {
        lemma_home_column(grid.width as int, grid.tile_width as int, cog_col);
        lemma_home_column(grid.height as int, grid.tile_height as int, cog_row);
        lemma_grid_index(home_row, home_col, across, down);
    }
}

proof fn lemma_home_column(side: int, tile: int, index: int)
    requires
        0 < side,
        0 < tile,
        TILE_SIZE as int % tile == 0,
        0 <= index < ceil_div(side as nat, tile as nat),
    ensures
        0 <= index / (TILE_SIZE as int / tile) < ceil_div(side as nat, TILE_SIZE as nat),
{
    let size = TILE_SIZE as int;
    let per_region = size / tile;
    lemma_fundamental_div_mod(size, tile);
    assert(size == per_region * tile) by (nonlinear_arith)
        requires
            size == tile * per_region,
    ;
    assert(per_region > 0) by (nonlinear_arith)
        requires
            size == per_region * tile,
            size > 0,
            tile > 0,
    ;
    lemma_fundamental_div_mod(index, per_region);
    let q = index / per_region;
    lemma_ceil_div(side as nat, tile as nat);
    lemma_ceil_div(side as nat, TILE_SIZE as nat);
    let count = ceil_div(side as nat, tile as nat) as int;
    let regions = ceil_div(side as nat, TILE_SIZE as nat) as int;
    assert(index * tile <= (count - 1) * tile) by (nonlinear_arith)
        requires
            index <= count - 1,
            tile > 0,
    ;
    assert(q * size <= index * tile) by (nonlinear_arith)
        requires
            size == per_region * tile,
            per_region * q <= index,
            tile > 0,
    ;
    assert(q < regions) by (nonlinear_arith)
        requires
            q * size < side,
            side <= regions * size,
            size > 0,
    ;
    assert(q >= 0) by (nonlinear_arith)
        requires
            index < per_region * q + per_region,
            index >= 0,
            per_region > 0,
    ;
}

/// A pixel of the output is the pixel of the image as far behind the window's corner. The tile
/// in row `cog_row` and column `cog_col` holds it, beyond the output there are zeros, and the
/// tiles of a band stand row by row behind those of the bands before.
pub proof fn law_packed_pixel_is_image_pixel<T: Jp2Sample>(
    image: spec_fn(int, int) -> T,
    plane: Seq<T>,
    comp_w: int,
    grid: TileGrid,
    region: Region,
    tile: PlanarTile<T>,
    band: int,
    cog_row: int,
    cog_col: int,
    x: int,
    y: int,
)
    requires
        is_packed_tile(tile, plane, comp_w, grid, region, band, cog_row, cog_col),
        grid.well_formed(),
        cog_col * grid.tile_width <= x < (cog_col + 1) * grid.tile_width,
        cog_row * grid.tile_height <= y < (cog_row + 1) * grid.tile_height,
        forall|r: int, c: int|
            region.y0 <= r < region.y1 && region.x0 <= c < region.x1 ==> plane[(r - region.y0)
                * comp_w + (c - region.x0)] == #[trigger] image(r, c),
    ensures
        ({
            let sample = sample2(
                tile.samples@,
                grid.tile_width as int,
                y - cog_row * grid.tile_height,
                x - cog_col * grid.tile_width,
            );
            &&& x < grid.width && y < grid.height && region.x0 <= grid.x_off + x < region.x1
                && region.y0 <= grid.y_off + y < region.y1 ==> sample == image(
                grid.y_off + y,
                grid.x_off + x,
            )
            &&& x >= grid.width || y >= grid.height ==> sample == T::zero()
        }),
        tile.block_index == (band * ceil_div(grid.height as nat, grid.tile_height as nat)
            + cog_row) * ceil_div(grid.width as nat, grid.tile_width as nat) + cog_col,
{
    let r = y - cog_row * grid.tile_height;
    let c = x - cog_col * grid.tile_width;
    assert((cog_col + 1) * grid.tile_width == cog_col * grid.tile_width + grid.tile_width)
        by (nonlinear_arith);
    assert((cog_row + 1) * grid.tile_height == cog_row * grid.tile_height + grid.tile_height)
        by (nonlinear_arith);
    assert(sample2(tile.samples@, grid.tile_width as int, r, c) == packed_sample(
        plane,
        comp_w,
        grid,
        region,
        cog_row,
        cog_col,
        r,
        c,
    ));
    let pixel = image(grid.y_off + y, grid.x_off + x);
    let down = grid.tiles_down as int;
    let across = grid.tiles_across as int;
    assert(band * (across * down) + cog_row * across + cog_col == (band * down + cog_row) * across
        + cog_col) by (nonlinear_arith);
}

/// The samples of an image are of the smallest kind that holds them, with a sign if they have
/// one. Those of other sizes, and floating-point ones, are not supported.
pub proof fn law_image_samples_have_the_smallest_kind(raster: Jp2Raster)
    ensures
        jp2_kind_of(raster) is Ok <==> !(raster.sample_format is Float) && (raster.bits_per_sample
            == 8 || raster.bits_per_sample == 12 || raster.bits_per_sample == 16),
        jp2_kind_of(raster) matches Ok(kind) ==> {
            &&& kind is U8 || kind is I8 <==> raster.bits_per_sample <= 8
            &&& kind is U16 || kind is I16 <==> raster.bits_per_sample > 8
            &&& kind is U8 || kind is U16 <==> raster.sample_format is Uint
        },
{
}

/// The scale by which planes are reduced is the smallest one for which the target covers all
/// of them.
pub proof fn law_fitting_scale_is_the_smallest(
    width: nat,
    height: nat,
    target_w: nat,
    target_h: nat,
)
    requires
        0 < target_w,
        0 < target_h,
    ensures
        ({
            let scale = fitting_scale(width, height, target_w, target_h);
            &&& scale >= 1
            &&& width <= scale * target_w
            &&& height <= scale * target_h
            &&& scale > 1 ==> (scale - 1) * target_w < width || (scale - 1) * target_h < height
        }),
{
    lemma_ceil_div(width, target_w);
    lemma_ceil_div(height, target_h);
    let scale = fitting_scale(width, height, target_w, target_h);
    let across = ceil_div(width, target_w) as int;
    let down = ceil_div(height, target_h) as int;
    lemma_mul_bound(across, target_w as int, scale, target_w as int);
    lemma_mul_bound(down, target_h as int, scale, target_h as int);
}

/// A sample of a plane that is reduced by averaging is the mean of the block of samples that
/// it stands for.
pub proof fn law_reduced_plane_holds_means<T: MeanSample>(
    reduced: Seq<T>,
    plane: Seq<T>,
    size: (int, int),
    target: (int, int),
    scale: nat,
    r: int,
    c: int,
)
    requires
        0 < scale,
        plane_reduced(reduced, plane, size, target, scale as int, ResamplingChoice::Average),
        0 <= r < target.1,
        0 <= c < target.0,
    ensures
        is_block_mean(
            sample2(reduced, target.0, r, c),
            |i: int, j: int| sample2(plane, size.0, i, j),
            |i: int, j: int| 0 <= i < size.1 && 0 <= j < size.0,
            None,
            r * scale,
            c * scale,
            scale,
        ),
{
    let grid = choose|grid: Grid2<T>|
        {
            &&& #[trigger] grid.well_formed()
            &&& grid.samples@ == plane
            &&& grid.cols == size.0
            &&& grid.rows == size.1
            &&& reduced.len() == target.1 * target.0
            &&& forall|r: int, c: int|
                0 <= r < target.1 && 0 <= c < target.0 ==> #[trigger] sample2(
                    reduced,
                    target.0,
                    r,
                    c,
                ) == reduced_sample(grid, r, c, scale as int, ResamplingChoice::Average, None)
        };
    lemma_average_is_block_mean(grid, r, c, scale, None, sample2(reduced, target.0, r, c));
    lemma_block_means_move(
        sample2(reduced, target.0, r, c),
        |i: int, j: int| grid.at(i, j),
        |i: int, j: int| grid.has(i, j),
        |i: int, j: int| sample2(plane, size.0, i, j),
        |i: int, j: int| 0 <= i < size.1 && 0 <= j < size.0,
        None,
        r * scale,
        c * scale,
        0,
        0,
        scale,
    );
}

/// A sample of a plane that is reduced by the nearest sample is the first of the block of
/// samples that it stands for.
pub proof fn law_reduced_plane_holds_first_samples<T: MeanSample>(
    reduced: Seq<T>,
    plane: Seq<T>,
    size: (int, int),
    target: (int, int),
    scale: nat,
    r: int,
    c: int,
)
    requires
        plane_reduced(reduced, plane, size, target, scale as int, ResamplingChoice::Nearest),
        0 <= r < target.1,
        0 <= c < target.0,
        r * scale < size.1,
        c * scale < size.0,
    ensures
        sample2(reduced, target.0, r, c) == sample2(plane, size.0, r * scale, c * scale),
{
    let grid = choose|grid: Grid2<T>|
        {
            &&& #[trigger] grid.well_formed()
            &&& grid.samples@ == plane
            &&& grid.cols == size.0
            &&& grid.rows == size.1
            &&& reduced.len() == target.1 * target.0
            &&& forall|r: int, c: int|
                0 <= r < target.1 && 0 <= c < target.0 ==> #[trigger] sample2(
                    reduced,
                    target.0,
                    r,
                    c,
                ) == reduced_sample(grid, r, c, scale as int, ResamplingChoice::Nearest, None)
        };
    let sample = sample2(reduced, target.0, r, c);
    lemma_mul_bound(r, scale as int, r, scale as int);
    lemma_mul_bound(c, scale as int, c, scale as int);
    law_nearest_is_first_of_block(grid, r, c, scale, None);
    assert(grid.has(r * scale, c * scale));
}

} // verus!
