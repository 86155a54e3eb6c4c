//! Reading the full-size image tile by tile of the source: which output tiles are cut
//! from which source tile.
use crate::arith::{ceil_div, div_ceil, lemma_ceil_div, lemma_grid_index, min_of};
use crate::cog::grid::{tile_count, tile_grid, tile_job_at, tile_jobs, TileJob};
use crate::encode::decode::lemma_job_row;
use crate::input::profile::IfdInfo;
use vstd::arithmetic::div_mod::lemma_fundamental_div_mod;
use vstd::prelude::*;

verus! {

/// A tile of the source, and the output tiles that overlap it, by their place in the
/// grid.
#[derive(Debug)]
pub struct SourceTile {
    pub area: TileJob,
    pub blocks: Vec<usize>,
}

/// Whether two rectangles share a pixel.
pub open spec fn overlaps(a: TileJob, b: TileJob) -> bool {
    &&& a.col_off + a.cols > b.col_off
    &&& a.col_off < b.col_off + b.cols
    &&& a.row_off + a.rows > b.row_off
    &&& a.row_off < b.row_off + b.rows
}

/// Those of the first `end` output tiles that overlap an area.
pub open spec fn overlapping(jobs: Seq<TileJob>, area: TileJob, end: int) -> Seq<usize>
    decreases end,
{
    if end <= 0 {
        Seq::empty()
    } else {
        let front = overlapping(jobs, area, end - 1);
        if overlaps(jobs[end - 1], area) {
            front.push((end - 1) as usize)
        } else {
            front
        }
    }
}

/// The area of a tile of the source.
pub open spec fn source_area(
    width: int,
    height: int,
    tile_width: int,
    tile_height: int,
    row: int,
    col: int,
) -> TileJob {
    TileJob {
        col_off: (col * tile_width) as usize,
        row_off: (row * tile_height) as usize,
        cols: min_of(tile_width, width - col * tile_width) as usize,
        rows: min_of(tile_height, height - row * tile_height) as usize,
    }
}

/// Width and height of the tiles of a source, those of the output where it does not say.
pub fn source_tile_size(ifd: &IfdInfo, tile_size: u32) -> (size: (usize, usize))
    ensures
        size.0 == (match ifd.tile_width {
            Some(width) => width,
            None => tile_size,
        }),
        size.1 == (match ifd.tile_height {
            Some(height) => height,
            None => tile_size,
        }),
{
    let width: u32 = match ifd.tile_width {
        Some(width) => width,
        None => tile_size,
    };
    let height: u32 = match ifd.tile_height {
        Some(height) => height,
        None => tile_size,
    };
    (width as usize, height as usize)
}

fn find_overlapping(jobs: &Vec<TileJob>, area: &TileJob) -> (blocks: Vec<usize>)
    requires
        area.col_off + area.cols <= usize::MAX,
        area.row_off + area.rows <= usize::MAX,
        forall|i: int|
            0 <= i < jobs@.len() ==> (#[trigger] jobs@[i]).col_off + jobs@[i].cols <= usize::MAX
                && jobs@[i].row_off + jobs@[i].rows <= usize::MAX,
    ensures
        blocks@ == overlapping(jobs@, *area, jobs@.len() as int),
{
    let mut blocks: Vec<usize> = Vec::new();
    let mut i: usize = 0;
    while i < jobs.len()
        invariant
            i <= jobs@.len(),
            area.col_off + area.cols <= usize::MAX,
            area.row_off + area.rows <= usize::MAX,
            forall|j: int|
                0 <= j < jobs@.len() ==> (#[trigger] jobs@[j]).col_off + jobs@[j].cols <= usize::MAX
                    && jobs@[j].row_off + jobs@[j].rows <= usize::MAX,
            blocks@ == overlapping(jobs@, *area, i as int),
        decreases jobs@.len() - i,
    {
        let job: TileJob = jobs[i];
        let apart: bool = job.col_off + job.cols <= area.col_off || job.col_off >= area.col_off
            + area.cols || job.row_off + job.rows <= area.row_off || job.row_off >= area.row_off
            + area.rows;
        if !apart {
            blocks.push(i);
        }
        i = i + 1;
    }
    blocks
}

/// Whether `tile` is the given tile of the source with its output tiles.
pub open spec fn is_source_tile(
    tile: SourceTile,
    width: u32,
    height: u32,
    tile_size: u32,
    tile_width: int,
    tile_height: int,
    index: int,
) -> bool {
    let across = ceil_div(width as nat, tile_width as nat) as int;
    &&& tile.area == source_area(
        width as int,
        height as int,
        tile_width,
        tile_height,
        index / across,
        index % across,
    )
    &&& tile.blocks@ == overlapping(
        tile_grid(width as nat, height as nat, tile_size as nat),
        tile.area,
        tile_count(width as nat, height as nat, tile_size as nat) as int,
    )
}

/// The tiles of the source, row by row, each with the output tiles that overlap it.
pub fn plan_source_tiles(
    width: u32,
    height: u32,
    tile_size: u32,
    tile_width: u32,
    tile_height: u32,
) -> (tiles: Vec<SourceTile>)
    requires
        tile_size > 0,
        tile_width > 0,
        tile_height > 0,
        width + tile_width <= usize::MAX,
        height + tile_height <= usize::MAX,
        tile_count(width as nat, height as nat, tile_size as nat) <= usize::MAX,
    ensures
        tiles@.len() == ceil_div(height as nat, tile_height as nat) * ceil_div(
            width as nat,
            tile_width as nat,
        ),
        forall|k: int|
            0 <= k < tiles@.len() ==> is_source_tile(
                #[trigger] tiles@[k],
                width,
                height,
                tile_size,
                tile_width as int,
                tile_height as int,
                k,
            ),
{
    let jobs: Vec<TileJob> = tile_jobs(width, height, tile_size);
    let image_w: usize = width as usize;
    let image_h: usize = height as usize;
    let src_w: usize = tile_width as usize;
    let src_h: usize = tile_height as usize;
    let across: usize = div_ceil(image_w, src_w);
    let down: usize = div_ceil(image_h, src_h);
    proof {
        assert forall|i: int| 0 <= i < jobs@.len() implies (#[trigger] jobs@[i]).col_off
            + jobs@[i].cols <= usize::MAX && jobs@[i].row_off + jobs@[i].rows <= usize::MAX by {
            lemma_job_row(width as nat, height as nat, tile_size as nat, i);
        }
        assert(0 * across == 0) by (nonlinear_arith);
    }
    let mut tiles: Vec<SourceTile> = Vec::new();
    let mut row: usize = 0;
    while row < down
        invariant
            row <= down,
            image_w == width,
            image_h == height,
            src_w == tile_width > 0,
            src_h == tile_height > 0,
            tile_size > 0,
            width + tile_width <= usize::MAX,
            height + tile_height <= usize::MAX,
            across == ceil_div(width as nat, tile_width as nat),
            down == ceil_div(height as nat, tile_height as nat),
            jobs@ == tile_grid(width as nat, height as nat, tile_size as nat),
            jobs@.len() == tile_count(width as nat, height as nat, tile_size as nat),
            forall|i: int|
                0 <= i < jobs@.len() ==> (#[trigger] jobs@[i]).col_off + jobs@[i].cols <= usize::MAX
                    && jobs@[i].row_off + jobs@[i].rows <= usize::MAX,
            tiles@.len() == row * across,
            forall|k: int|
                0 <= k < tiles@.len() ==> is_source_tile(
                    #[trigger] tiles@[k],
                    width,
                    height,
                    tile_size,
                    tile_width as int,
                    tile_height as int,
                    k,
                ),
        decreases down - row,
    {
        let mut col: usize = 0;
        while col < across
            invariant
                row < down,
                col <= across,
                image_w == width,
                image_h == height,
                src_w == tile_width > 0,
                src_h == tile_height > 0,
                tile_size > 0,
                width + tile_width <= usize::MAX,
                height + tile_height <= usize::MAX,
                across == ceil_div(width as nat, tile_width as nat),
                down == ceil_div(height as nat, tile_height as nat),
                jobs@ == tile_grid(width as nat, height as nat, tile_size as nat),
                jobs@.len() == tile_count(width as nat, height as nat, tile_size as nat),
                forall|i: int|
                    0 <= i < jobs@.len() ==> (#[trigger] jobs@[i]).col_off + jobs@[i].cols
                        <= usize::MAX && jobs@[i].row_off + jobs@[i].rows <= usize::MAX,
                tiles@.len() == row * across + col,
                forall|k: int|
                    0 <= k < tiles@.len() ==> is_source_tile(
                        #[trigger] tiles@[k],
                        width,
                        height,
                        tile_size,
                        tile_width as int,
                        tile_height as int,
                        k,
                    ),
            decreases across - col,
        {
            proof {
                lemma_grid_index(row as int, col as int, across as int, down as int);
                lemma_start_within(col as int, src_w as int, image_w as nat);
                lemma_start_within(row as int, src_h as int, image_h as nat);
            }
            let col_off: usize = col * src_w;
            let row_off: usize = row * src_h;
            let cols: usize = if src_w <= image_w - col_off {
                src_w
            } else {
                image_w - col_off
            };
            let rows: usize = if src_h <= image_h - row_off {
                src_h
            } else {
                image_h - row_off
            };
            let area = TileJob { col_off, row_off, cols, rows };
            let blocks: Vec<usize> = find_overlapping(&jobs, &area);
            tiles.push(SourceTile { area, blocks });
            col = col + 1;
        }
        proof {
            assert((row + 1) * across == row * across + across) by (nonlinear_arith);
        }
        row = row + 1;
    }
    tiles
}

proof fn lemma_start_within(index: int, piece: int, total: nat)
    requires
        piece > 0,
        0 <= index < ceil_div(total, piece as nat),
    ensures
        0 <= index * piece < total,
{
    lemma_ceil_div(total, piece as nat);
    let n = ceil_div(total, piece as nat) as int;
    assert(0 <= index * piece <= (n - 1) * piece) by (nonlinear_arith)
        requires
            piece > 0,
            0 <= index < n,
    ;
}

/// Where the tiles of the source hold whole output tiles, an output tile that overlaps a
/// source tile lies within it.
pub proof fn law_overlapping_tiles_lie_within(
    width: u32,
    height: u32,
    tile_size: u32,
    tile_width: u32,
    tile_height: u32,
    row: int,
    col: int,
    index: int,
)
    requires
        tile_size > 0,
        tile_width > 0,
        tile_height > 0,
        tile_width % tile_size == 0,
        tile_height % tile_size == 0,
        width <= usize::MAX,
        height <= usize::MAX,
        0 <= row < ceil_div(height as nat, tile_height as nat),
        0 <= col < ceil_div(width as nat, tile_width as nat),
        0 <= index < tile_count(width as nat, height as nat, tile_size as nat),
        overlaps(
            tile_job_at(width as nat, height as nat, tile_size as nat, index),
            source_area(
                width as int,
                height as int,
                tile_width as int,
                tile_height as int,
                row,
                col,
            ),
        ),
    ensures
        ({
            let job = tile_job_at(width as nat, height as nat, tile_size as nat, index);
            let area = source_area(
                width as int,
                height as int,
                tile_width as int,
                tile_height as int,
                row,
                col,
            );
            &&& area.col_off <= job.col_off
            &&& job.col_off + job.cols <= area.col_off + area.cols
            &&& area.row_off <= job.row_off
            &&& job.row_off + job.rows <= area.row_off + area.rows
        }),
{
    let tile = tile_size as int;
    lemma_job_row(width as nat, height as nat, tile_size as nat, index);
    lemma_start_within(col, tile_width as int, width as nat);
    lemma_start_within(row, tile_height as int, height as nat);
    let across = ceil_div(width as nat, tile_size as nat) as int;
    lemma_aligned(index % across, tile, col, tile_width as int);
    lemma_aligned(index / across, tile, row, tile_height as int);
}

proof fn lemma_aligned(t: int, tile: int, s: int, piece: int)
    requires
        tile > 0,
        piece > 0,
        piece % tile == 0,
    ensures
        t * tile + tile > s * piece ==> t * tile >= s * piece,
        t * tile < s * piece + piece ==> t * tile + tile <= s * piece + piece,
{
    let n = piece / tile;
    lemma_fundamental_div_mod(piece, tile);
    assert(s * piece == (s * n) * tile) by (nonlinear_arith)
        requires
            piece == tile * n,
    ;
    assert(s * piece + piece == (s * n + n) * tile) by (nonlinear_arith)
        requires
            piece == tile * n,
    ;
    let a = s * n;
    let b = s * n + n;
    assert(t * tile + tile > a * tile ==> t * tile >= a * tile) by (nonlinear_arith)
        requires
            tile > 0,
    ;
    assert(t * tile < b * tile ==> t * tile + tile <= b * tile) by (nonlinear_arith)
        requires
            tile > 0,
    ;
}

/// The list of output tiles of a source tile names exactly those that overlap it.
pub proof fn law_overlapping_is_exact(jobs: Seq<TileJob>, area: TileJob, end: int, index: usize)
    requires
        0 <= end <= jobs.len(),
        end <= usize::MAX,
    ensures
        overlapping(jobs, area, end).contains(index) <==> index < end && overlaps(
            jobs[index as int],
            area,
        ),
    decreases end,
{
    if end > 0 {
        law_overlapping_is_exact(jobs, area, end - 1, index);
        let front = overlapping(jobs, area, end - 1);
        if overlaps(jobs[end - 1], area) {
            let whole = front.push((end - 1) as usize);
            if front.contains(index) {
                let k = choose|k: int| 0 <= k < front.len() && front[k] == index;
                assert(whole[k] == index);
            }
            if index == end - 1 {
                assert(whole[front.len() as int] == index);
            }
            if whole.contains(index) && index != end - 1 {
                let k = choose|k: int| 0 <= k < whole.len() && whole[k] == index;
                assert(front[k] == index);
            }
        }
    }
}

/// Two areas overlap just when a pixel lies in both.
pub proof fn law_overlapping_areas_share_a_pixel(a: TileJob, b: TileJob, x: int, y: int)
    ensures
        a.covers(x, y) && b.covers(x, y) ==> overlaps(a, b),
        a.cols > 0 && a.rows > 0 && b.cols > 0 && b.rows > 0 && overlaps(a, b) ==> ({
            let column = if a.col_off < b.col_off {
                b.col_off
            } else {
                a.col_off
            };
            let row = if a.row_off < b.row_off {
                b.row_off
            } else {
                a.row_off
            };
            a.covers(column as int, row as int) && b.covers(column as int, row as int)
        }),
{
}

/// The source tile in the row and column that a pixel falls into holds that pixel, and no
/// source tile reaches beyond the raster.
pub proof fn law_source_tiles_hold_their_pixels(
    width: int,
    height: int,
    tile_width: int,
    tile_height: int,
    x: int,
    y: int,
)
    requires
        0 < tile_width <= u32::MAX,
        0 < tile_height <= u32::MAX,
        0 <= x < width <= u32::MAX,
        0 <= y < height <= u32::MAX,
    ensures
        ({
            let area = source_area(
                width,
                height,
                tile_width,
                tile_height,
                y / tile_height,
                x / tile_width,
            );
            &&& area.covers(x, y)
            &&& area.col_off + area.cols <= width
            &&& area.row_off + area.rows <= height
            &&& area.cols <= tile_width
            &&& area.rows <= tile_height
        }),
{
    crate::crop::lemma_share(x, tile_width);
    crate::crop::lemma_share(y, tile_height);
    let col = x / tile_width;
    let row = y / tile_height;
    assert((col + 1) * tile_width == col * tile_width + tile_width) by (nonlinear_arith);
    assert((row + 1) * tile_height == row * tile_height + tile_height) by (nonlinear_arith);
    vstd::arithmetic::div_mod::lemma_div_pos_is_pos(x, tile_width);
    vstd::arithmetic::div_mod::lemma_div_pos_is_pos(y, tile_height);
    assert(0 <= col * tile_width) by (nonlinear_arith)
        requires
            0 <= col,
            0 < tile_width,
    ;
    assert(0 <= row * tile_height) by (nonlinear_arith)
        requires
            0 <= row,
            0 < tile_height,
    ;
}

} // verus!
