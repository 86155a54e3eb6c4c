//! Output tiles of a raster and the pyramid of its overviews.
use crate::arith::{
    ceil_div, div_ceil, lemma_ceil_div, lemma_grid_index, lemma_grid_split, max_of, min_of,
};
use vstd::arithmetic::div_mod::{
    lemma_div_denominator, lemma_div_is_ordered, lemma_div_is_ordered_by_denominator,
    lemma_div_pos_is_pos, lemma_fundamental_div_mod, lemma_fundamental_div_mod_converse,
};
use vstd::arithmetic::power2::{lemma2_to64, lemma_pow2_pos, lemma_pow2_unfold, pow2};
use vstd::prelude::*;

verus! {

/// One output tile: where it starts in the raster and how much of it is covered.
#[derive(Debug, Clone, Copy, PartialEq, Eq, Structural)]
pub struct TileJob {
    pub col_off: usize,
    pub row_off: usize,
    pub cols: usize,
    pub rows: usize,
}

impl TileJob {
    /// Whether the pixel in column `x` of row `y` lies in this tile.
    pub open spec fn covers(self, x: int, y: int) -> bool {
        &&& self.col_off <= x < self.col_off + self.cols
        &&& self.row_off <= y < self.row_off + self.rows
    }
}

/// The tile in row `row` and column `col` of the grid of `tile`-sized tiles over a
/// `width` by `height` raster: tiles at the right and lower edge are cut short.
pub open spec fn tile_job(width: nat, height: nat, tile: nat, row: int, col: int) -> TileJob {
    TileJob {
        col_off: (col * tile) as usize,
        row_off: (row * tile) as usize,
        cols: min_of(width - col * tile, tile as int) as usize,
        rows: min_of(height - row * tile, tile as int) as usize,
    }
}

/// The tile with row-major index `index`.
pub open spec fn tile_job_at(width: nat, height: nat, tile: nat, index: int) -> TileJob {
    let across = ceil_div(width, tile) as int;
    tile_job(width, height, tile, index / across, index % across)
}

/// How many tiles cover the raster.
pub open spec fn tile_count(width: nat, height: nat, tile: nat) -> nat {
    ceil_div(height, tile) * ceil_div(width, tile)
}

/// All tiles of the raster, row by row.
pub open spec fn tile_grid(width: nat, height: nat, tile: nat) -> Seq<TileJob> {
    Seq::new(
        tile_count(width, height, tile),
        |index: int| tile_job_at(width, height, tile, index),
    )
}

/// The output tiles of a raster, row by row from the upper left.
pub fn tile_jobs(width: u32, height: u32, tile_size: u32) -> (jobs: Vec<TileJob>)
    requires
        tile_size > 0 || height == 0,
    ensures
        jobs@ == tile_grid(width as nat, height as nat, tile_size as nat),
{
    let mut jobs: Vec<TileJob> = Vec::new();
    if height == 0 {
        proof {
            if tile_size > 0 {
                lemma_ceil_div(0, tile_size as nat);
            }
            assert(jobs@ =~= tile_grid(width as nat, height as nat, tile_size as nat));
        }
        return jobs;
    }
    let tile: usize = tile_size as usize;
    let w: usize = width as usize;
    let h: usize = height as usize;
    let across: usize = div_ceil(w, tile);
    let down: usize = div_ceil(h, tile);
    let mut row: usize = 0;
    while row < down
        invariant
            0 < tile <= u32::MAX,
            w <= u32::MAX,
            h <= u32::MAX,
            across == ceil_div(w as nat, tile as nat),
            down == ceil_div(h as nat, tile as nat),
            row <= down,
            jobs@.len() == row * across,
            forall|i: int|
                0 <= i < jobs@.len() ==> #[trigger] jobs@[i] == tile_job_at(
                    w as nat,
                    h as nat,
                    tile as nat,
                    i,
                ),
        decreases down - row,
    {
        let mut col: usize = 0;
        while col < across
            invariant
                0 < tile <= u32::MAX,
                w <= u32::MAX,
                h <= u32::MAX,
                across == ceil_div(w as nat, tile as nat),
                down == ceil_div(h as nat, tile as nat),
                row < down,
                col <= across,
                jobs@.len() == row * across + col,
                forall|i: int|
                    0 <= i < jobs@.len() ==> #[trigger] jobs@[i] == tile_job_at(
                        w as nat,
                        h as nat,
                        tile as nat,
                        i,
                    ),
            decreases across - col,
        {
            proof {
                lemma_tile_job_bounds(w as nat, h as nat, tile as nat, row as int, col as int);
                lemma_grid_index(row as int, col as int, across as int, down as int);
            }
            let col_off: usize = col * tile;
            let row_off: usize = row * tile;
            let cols: usize = if w - col_off < tile {
                w - col_off
            } else {
                tile
            };
            let rows: usize = if h - row_off < tile {
                h - row_off
            } else {
                tile
            };
            jobs.push(TileJob { col_off, row_off, cols, rows });
            col = col + 1;
        }
        proof {
            assert((row + 1) * across == row * across + across) by (nonlinear_arith);
        }
        row = row + 1;
    }
    proof {
        assert(jobs@ =~= tile_grid(width as nat, height as nat, tile_size as nat));
    }
    jobs
}

/// Every pixel lies in exactly one tile, the one that its coordinates divided by
/// the tile size name.
pub proof fn law_tiles_partition_raster(width: nat, height: nat, tile: nat, x: int, y: int)
    requires
        0 < tile <= u32::MAX,
        width <= u32::MAX,
        height <= u32::MAX,
        0 <= x < width,
        0 <= y < height,
    ensures
        ({
            let tiles = tile_grid(width, height, tile);
            let home = (y / tile as int) * ceil_div(width, tile) + x / tile as int;
            &&& 0 <= home < tiles.len()
            &&& forall|i: int|
                0 <= i < tiles.len() ==> (#[trigger] tiles[i].covers(x, y) <==> i == home)
        }),
{
    let t = tile as int;
    let across = ceil_div(width, tile) as int;
    let down = ceil_div(height, tile) as int;
    lemma_fundamental_div_mod(x, t);
    lemma_fundamental_div_mod(y, t);
    let row = y / t;
    let col = x / t;
    lemma_tile_of_pixel(width, height, tile, x, y);
    lemma_grid_index(row, col, across, down);
    let tiles = tile_grid(width, height, tile);
    let home = row * across + col;
    assert forall|i: int| 0 <= i < tiles.len() implies (#[trigger] tiles[i].covers(x, y) <==> i
        == home) by {
        lemma_grid_split(i, across, down);
        let r = i / across;
        let c = i % across;
        lemma_tile_job_bounds(width, height, tile, r, c);
        if tiles[i].covers(x, y) {
            lemma_fundamental_div_mod_converse(x, t, c, x - c * t);
            lemma_fundamental_div_mod_converse(y, t, r, y - r * t);
        }
        assert(t * col == col * t) by (nonlinear_arith);
        assert(t * row == row * t) by (nonlinear_arith);
    }
}

/// The tile that covers a pixel is a tile of the grid.
pub proof fn lemma_tile_of_pixel(width: nat, height: nat, tile: nat, x: int, y: int)
    requires
        tile > 0,
        0 <= x < width,
        0 <= y < height,
    ensures
        0 <= y / tile as int,
        (y / tile as int) < ceil_div(height, tile),
        0 <= x / tile as int,
        (x / tile as int) < ceil_div(width, tile),
{
    let t = tile as int;
    let across = ceil_div(width, tile) as int;
    let down = ceil_div(height, tile) as int;
    lemma_ceil_div(width, tile);
    lemma_ceil_div(height, tile);
    lemma_fundamental_div_mod(x, t);
    lemma_fundamental_div_mod(y, t);
    let row = y / t;
    let col = x / t;
    assert(0 <= col < across) by (nonlinear_arith)
        requires
            x == t * col + x % t,
            0 <= x % t < t,
            0 <= x < width,
            width <= across * t,
    ;
    assert(0 <= row < down) by (nonlinear_arith)
        requires
            y == t * row + y % t,
            0 <= y % t < t,
            0 <= y < height,
            height <= down * t,
    ;
}

/// A tile of the grid starts inside the raster and keeps inside it.
pub proof fn lemma_tile_job_bounds(width: nat, height: nat, tile: nat, row: int, col: int)
    requires
        0 < tile <= u32::MAX,
        width <= u32::MAX,
        height <= u32::MAX,
        0 <= row < ceil_div(height, tile),
        0 <= col < ceil_div(width, tile),
    ensures
        ({
            let job = tile_job(width, height, tile, row, col);
            &&& job.col_off == col * tile
            &&& job.row_off == row * tile
            &&& job.cols == min_of(width - col * tile, tile as int)
            &&& job.rows == min_of(height - row * tile, tile as int)
            &&& 0 < job.cols <= tile
            &&& 0 < job.rows <= tile
            &&& job.col_off + job.cols <= width
            &&& job.row_off + job.rows <= height
        }),
{
    lemma_ceil_div(width, tile);
    lemma_ceil_div(height, tile);
    let across = ceil_div(width, tile) as int;
    let down = ceil_div(height, tile) as int;
    assert(0 <= col * tile <= (across - 1) * tile) by (nonlinear_arith)
        requires
            0 <= col <= across - 1,
            tile > 0,
    ;
    assert(0 <= row * tile <= (down - 1) * tile) by (nonlinear_arith)
        requires
            0 <= row <= down - 1,
            tile > 0,
    ;
}

/// Whether `levels` are the decimation factors of the pyramid of a raster: doubling
/// from two, one more as long as the longer side, halved that often, still exceeds
/// `blocksize`, and ten at most.
pub open spec fn is_auto_pyramid(width: nat, height: nat, blocksize: nat, levels: Seq<u32>) -> bool {
    &&& levels.len() <= 10
    &&& forall|i: int| 0 <= i < levels.len() ==> #[trigger] levels[i] == pow2((i + 1) as nat)
    &&& forall|k: nat|
        k < levels.len() ==> max_of(width as int, height as int) / #[trigger] (pow2(k) as int)
            > blocksize
    &&& levels.len() == 10 || max_of(width as int, height as int) / (pow2(levels.len()) as int)
        <= blocksize
}

/// Halving once more divides by the next power of two.
proof fn lemma_halve(value: int, times: nat)
    requires
        0 <= value,
    ensures
        (value / (pow2(times) as int)) / 2 == value / (pow2(times + 1) as int),
        0 <= value / (pow2(times) as int) <= value,
{
    lemma_pow2_pos(times);
    lemma_pow2_unfold(times + 1);
    lemma_div_denominator(value, pow2(times) as int, 2);
    assert(pow2(times) * 2 == pow2(times + 1));
    lemma_div_pos_is_pos(value, pow2(times) as int);
    lemma_div_is_ordered_by_denominator(value, 1, pow2(times) as int);
}

/// Halving keeps the order of the two sides.
proof fn lemma_halve_max(width: int, height: int, times: nat)
    requires
        0 <= width,
        0 <= height,
    ensures
        max_of(width, height) / (pow2(times) as int) == max_of(
            width / (pow2(times) as int),
            height / (pow2(times) as int),
        ),
{
    lemma_pow2_pos(times);
    if width <= height {
        lemma_div_is_ordered(width, height, pow2(times) as int);
    } else {
        lemma_div_is_ordered(height, width, pow2(times) as int);
    }
}

/// The decimation factors of the overviews that a raster gets by default.
pub fn auto_overview_levels(width: u32, height: u32, blocksize: u32) -> (levels: Vec<u32>)
    ensures
        is_auto_pyramid(width as nat, height as nat, blocksize as nat, levels@),
{
    let mut levels: Vec<u32> = Vec::new();
    let mut factor: u32 = 2;
    let mut w: u32 = width;
    let mut h: u32 = height;
    proof {
        lemma2_to64();
    }
    while w > blocksize || h > blocksize
        invariant_except_break
            levels@.len() < 10,
            factor == pow2((levels@.len() + 1) as nat),
            w == width as int / (pow2(levels@.len()) as int),
            h == height as int / (pow2(levels@.len()) as int),
            forall|i: int|
                0 <= i < levels@.len() ==> #[trigger] levels@[i] == pow2((i + 1) as nat),
            forall|k: nat|
                k < levels@.len() ==> max_of(width as int, height as int) / #[trigger] (pow2(
                    k,
                ) as int) > blocksize,
        ensures
            is_auto_pyramid(width as nat, height as nat, blocksize as nat, levels@),
        decreases 10 - levels@.len(),
    {
        proof {
            lemma2_to64();
            lemma_halve(width as int, levels@.len());
            lemma_halve(height as int, levels@.len());
            lemma_halve_max(width as int, height as int, levels@.len());
        }
        w = w / 2;
        h = h / 2;
        levels.push(factor);
        if levels.len() == 10 {
            break;
        }
        proof {
            lemma_pow2_unfold((levels@.len() + 1) as nat);
        }
        factor = factor * 2;
    }
    levels
}

/// The default decimation factors double from level to level and stay within 1024,
/// so that each overview can be reduced by two from the one before it.
pub proof fn law_auto_levels_double(width: nat, height: nat, blocksize: nat, levels: Seq<u32>)
    requires
        is_auto_pyramid(width, height, blocksize, levels),
    ensures
        levels.len() > 0 ==> levels[0] == 2,
        forall|i: int|
            0 <= i < levels.len() - 1 ==> levels[i + 1] == 2 * (#[trigger] levels[i]),
        forall|i: int| 0 <= i < levels.len() ==> 2 <= #[trigger] levels[i] <= 1024,
{
    lemma2_to64();
    assert forall|i: int| 0 <= i < levels.len() - 1 implies levels[i + 1] == 2
        * #[trigger] levels[i] by {
        lemma_pow2_unfold((i + 2) as nat);
    }
}

/// Default pyramids have one answer: two lists of factors for the same raster agree.
pub proof fn law_auto_levels_unique(
    width: nat,
    height: nat,
    blocksize: nat,
    first: Seq<u32>,
    second: Seq<u32>,
)
    requires
        is_auto_pyramid(width, height, blocksize, first),
        is_auto_pyramid(width, height, blocksize, second),
    ensures
        first == second,
{
    if first.len() < second.len() {
        assert(max_of(width as int, height as int) / (pow2(first.len()) as int) > blocksize);
    } else if second.len() < first.len() {
        assert(max_of(width as int, height as int) / (pow2(second.len()) as int) > blocksize);
    }
    assert(first =~= second);
}

/// One side of an overview: the raster's side divided by the factor, at least one.
pub open spec fn reduced_side(side: nat, level: nat) -> nat {
    max_of(side as int / level as int, 1) as nat
}

/// Width and height of the overview with decimation factor `level`.
pub fn overview_dimensions(width: u32, height: u32, level: u32) -> (size: (u32, u32))
    requires
        level > 0,
    ensures
        size.0 == reduced_side(width as nat, level as nat),
        size.1 == reduced_side(height as nat, level as nat),
{
    let w: u32 = width / level;
    let h: u32 = height / level;
    (
        if w < 1 {
            1
        } else {
            w
        },
        if h < 1 {
            1
        } else {
            h
        },
    )
}

/// Width and height of each overview.
pub fn overview_sizes(width: u32, height: u32, levels: &[u32]) -> (sizes: Vec<(usize, usize)>)
    requires
        forall|i: int| 0 <= i < levels@.len() ==> #[trigger] levels@[i] > 0,
    ensures
        sizes@.len() == levels@.len(),
        forall|i: int|
            0 <= i < sizes@.len() ==> {
                &&& (#[trigger] sizes@[i]).0 == reduced_side(width as nat, levels@[i] as nat)
                &&& sizes@[i].1 == reduced_side(height as nat, levels@[i] as nat)
            },
{
    let mut sizes: Vec<(usize, usize)> = Vec::new();
    let mut i: usize = 0;
    while i < levels.len()
        invariant
            i <= levels@.len(),
            sizes@.len() == i,
            forall|j: int| 0 <= j < levels@.len() ==> #[trigger] levels@[j] > 0,
            forall|j: int|
                0 <= j < sizes@.len() ==> {
                    &&& (#[trigger] sizes@[j]).0 == reduced_side(width as nat, levels@[j] as nat)
                    &&& sizes@[j].1 == reduced_side(height as nat, levels@[j] as nat)
                },
        decreases levels@.len() - i,
    {
        let (w, h): (u32, u32) = overview_dimensions(width, height, levels[i]);
        sizes.push((w as usize, h as usize));
        i = i + 1;
    }
    sizes
}

/// A side of an overview is the whole number of times that its factor goes into that of the
/// raster, and never nothing.
pub proof fn law_overview_side_is_share_of_raster(side: nat, level: nat)
    requires
        level > 0,
    ensures
        side >= level ==> reduced_side(side, level) * level <= side < (reduced_side(side, level)
            + 1) * level,
        side < level ==> reduced_side(side, level) == 1,
        level == 1 && side > 0 ==> reduced_side(side, level) == side,
{
    let s = side as int;
    let l = level as int;
    lemma_fundamental_div_mod(s, l);
    let q = s / l;
    assert(l * q == q * l) by (nonlinear_arith);
    assert((q + 1) * l == q * l + l) by (nonlinear_arith);
    if side >= level {
        assert(q >= 1) by (nonlinear_arith)
            requires
                s >= l,
                s < q * l + l,
                l > 0,
        ;
    } else {
        lemma_fundamental_div_mod_converse(s, l, 0, s);
    }
}

/// A default pyramid goes on until an overview is no larger than a block: there is none for a
/// raster that is no larger, each overview but the last is larger, and fewer than ten end
/// with one that is not.
pub proof fn law_auto_pyramid_ends_in_a_block(
    width: nat,
    height: nat,
    blocksize: nat,
    levels: Seq<u32>,
    i: int,
)
    requires
        is_auto_pyramid(width, height, blocksize, levels),
    ensures
        width <= blocksize && height <= blocksize ==> levels.len() == 0,
        levels.len() == 0 ==> width <= blocksize && height <= blocksize,
        0 <= i < levels.len() - 1 ==> max_of(width as int, height as int) / levels[i] as int
            > blocksize,
        0 < levels.len() < 10 ==> max_of(width as int, height as int) / levels.last() as int
            <= blocksize,
        levels.len() <= 10,
{
    lemma2_to64();
    let side = max_of(width as int, height as int);
    vstd::arithmetic::div_mod::lemma_div_basics(side);
    if levels.len() > 0 {
        assert(side / (pow2(0) as int) > blocksize);
    }
    if 0 <= i < levels.len() - 1 {
        assert(side / (pow2((i + 1) as nat) as int) > blocksize);
    }
}

/// Each output tile but those at the right and lower edge has the full size, and those end
/// with the raster.
pub proof fn law_tiles_have_full_size(width: nat, height: nat, tile: nat, index: int)
    requires
        0 < tile <= u32::MAX,
        width <= u32::MAX,
        height <= u32::MAX,
        0 <= index < tile_count(width, height, tile),
    ensures
        ({
            let job = tile_job_at(width, height, tile, index);
            &&& job.cols == tile || job.col_off + job.cols == width
            &&& job.rows == tile || job.row_off + job.rows == height
            &&& 0 < job.cols <= tile
            &&& 0 < job.rows <= tile
            &&& job.col_off as int % tile as int == 0
            &&& job.row_off as int % tile as int == 0
        }),
{
    let across = ceil_div(width, tile) as int;
    let down = ceil_div(height, tile) as int;
    lemma_grid_split(index, across, down);
    lemma_tile_job_bounds(width, height, tile, index / across, index % across);
    vstd::arithmetic::div_mod::lemma_mod_multiples_basic(index / across, tile as int);
    vstd::arithmetic::div_mod::lemma_mod_multiples_basic(index % across, tile as int);
}

} // verus!
