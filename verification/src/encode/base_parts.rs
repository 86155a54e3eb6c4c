//! The parts of the source that are decoded at once for the full-size image, and the output
//! tiles that are cut from them.
use crate::arith::{ceil_div, lemma_grid_index};
use crate::cog::grid::{
    lemma_tile_of_pixel, tile_count, tile_grid, tile_job_at, tile_jobs, TileJob,
};
use crate::crop::WriteWindow;
use crate::encode::decode::{
    are_strip_windows, base_path, lemma_job_row, plan_strip_windows, stream_base_layer_to_spool,
    BaseLayerPath, StripWindow,
};
use crate::encode::source_tiles::{
    is_source_tile, law_overlapping_areas_share_a_pixel, law_overlapping_is_exact,
    law_source_tiles_hold_their_pixels, plan_source_tiles, source_tile_size, SourceTile,
};
use crate::input::profile::{IfdInfo, SourceInfo};
use vstd::prelude::*;

verus! {

/// Width of the tiles of a source, that of the output where it does not say.
pub open spec fn part_width(source: SourceInfo, tile_size: u32) -> u32 {
    match source.base().tile_width {
        Some(width) => width,
        None => tile_size,
    }
}

/// Height of the tiles of a source, that of the output where it does not say.
pub open spec fn part_height(source: SourceInfo, tile_size: u32) -> u32 {
    match source.base().tile_height {
        Some(height) => height,
        None => tile_size,
    }
}

/// Whether a part is a window of strips, over the whole width of the raster, with the tiles
/// that start in it.
pub open spec fn is_window_part(part: SourceTile, window: StripWindow, width: u32) -> bool {
    &&& part.area == (TileJob {
        col_off: 0,
        row_off: window.row_start,
        cols: width as usize,
        rows: window.row_count,
    })
    &&& part.blocks@ == Seq::new(
        (window.end_block - window.first_block) as nat,
        |i: int| (window.first_block + i) as usize,
    )
}

/// Whether these are the parts by which the full-size image is decoded: the tiles of the
/// source, or windows of its strips. There are none where it is read by rows of output
/// tiles.
pub open spec fn are_parts(
    source: SourceInfo,
    width: u32,
    height: u32,
    tile_size: u32,
    window: Option<WriteWindow>,
    parts: Seq<SourceTile>,
) -> bool {
    match base_path(source, tile_size as int, window) {
        BaseLayerPath::SourceTiles => {
            let tile_width = part_width(source, tile_size);
            let tile_height = part_height(source, tile_size);
            &&& parts.len() == ceil_div(height as nat, tile_height as nat) * ceil_div(
                width as nat,
                tile_width as nat,
            )
            &&& forall|k: int|
                0 <= k < parts.len() ==> is_source_tile(
                    #[trigger] parts[k],
                    width,
                    height,
                    tile_size,
                    tile_width as int,
                    tile_height as int,
                    k,
                )
        },
        BaseLayerPath::StripWindows { rows_per_strip } => exists|windows: Seq<StripWindow>|
            #[trigger]
            are_strip_windows(
                windows,
                width as nat,
                height as nat,
                tile_size as nat,
                rows_per_strip as int,
            ) && parts.len() == windows.len() && forall|k: int|
                0 <= k < parts.len() ==> is_window_part(#[trigger] parts[k], windows[k], width),
        BaseLayerPath::RowGroups => parts.len() == 0,
    }
}

/// Whether a tile lies within an area.
pub open spec fn lies_within(job: TileJob, area: TileJob) -> bool {
    &&& area.col_off <= job.col_off
    &&& area.row_off <= job.row_off
    &&& job.col_off + job.cols <= area.col_off + area.cols
    &&& job.row_off + job.rows <= area.row_off + area.rows
}

/// Whether every output tile of a part lies within it.
pub open spec fn part_holds(width: nat, height: nat, tile: nat, part: SourceTile) -> bool {
    forall|b: int|
        0 <= b < part.blocks@.len() ==> (#[trigger] part.blocks@[b]) < tile_count(
            width,
            height,
            tile,
        ) && lies_within(tile_job_at(width, height, tile, part.blocks@[b] as int), part.area)
}

/// Whether every output tile lies within the part that it is cut from.
pub open spec fn parts_hold(width: nat, height: nat, tile: nat, parts: Seq<SourceTile>) -> bool {
    forall|k: int| 0 <= k < parts.len() ==> part_holds(width, height, tile, #[trigger] parts[k])
}

fn holds_tiles(width: u32, height: u32, jobs: &Vec<TileJob>, tile_size: u32, part: &SourceTile) -> (
    holds: bool)
    requires
        tile_size > 0,
        jobs@ == tile_grid(width as nat, height as nat, tile_size as nat),
        jobs@.len() == tile_count(width as nat, height as nat, tile_size as nat),
    ensures
        holds == part_holds(width as nat, height as nat, tile_size as nat, *part),
{
    let area: TileJob = part.area;
    let mut b: usize = 0;
    while b < part.blocks.len()
        invariant
            b <= part.blocks@.len(),
            tile_size > 0,
            area == part.area,
            jobs@ == tile_grid(width as nat, height as nat, tile_size as nat),
            jobs@.len() == tile_count(width as nat, height as nat, tile_size as nat),
            forall|i: int|
                0 <= i < b ==> (#[trigger] part.blocks@[i]) < tile_count(
                    width as nat,
                    height as nat,
                    tile_size as nat,
                ) && lies_within(
                    tile_job_at(
                        width as nat,
                        height as nat,
                        tile_size as nat,
                        part.blocks@[i] as int,
                    ),
                    part.area,
                ),
        decreases part.blocks@.len() - b,
    {
        let block: usize = part.blocks[b];
        if block >= jobs.len() {
            return false;
        }
        let job: TileJob = jobs[block];
        proof {
            lemma_job_row(width as nat, height as nat, tile_size as nat, block as int);
            assert(job == tile_job_at(
                width as nat,
                height as nat,
                tile_size as nat,
                part.blocks@[b as int] as int,
            ));
        }
        if job.col_off < area.col_off || job.row_off < area.row_off {
            return false;
        }
        let col: usize = job.col_off - area.col_off;
        let row: usize = job.row_off - area.row_off;
        if area.cols < col || area.rows < row || area.cols - col < job.cols || area.rows - row
            < job.rows {
            return false;
        }
        b = b + 1;
    }
    true
}

fn window_part(window: &StripWindow, width: u32) -> (part: SourceTile)
    requires
        window.first_block <= window.end_block,
    ensures
        is_window_part(part, *window, width),
{
    let mut blocks: Vec<usize> = Vec::new();
    let mut block: usize = window.first_block;
    while block < window.end_block
        invariant
            window.first_block <= block <= window.end_block,
            blocks@ == Seq::new(
                (block - window.first_block) as nat,
                |i: int| (window.first_block + i) as usize,
            ),
        decreases window.end_block - block,
    {
        blocks.push(block);
        block = block + 1;
        assert(blocks@ =~= Seq::new(
            (block - window.first_block) as nat,
            |i: int| (window.first_block + i) as usize,
        ));
    }
    SourceTile {
        area: TileJob {
            col_off: 0,
            row_off: window.row_start,
            cols: width as usize,
            rows: window.row_count,
        },
        blocks,
    }
}

fn find_parts(
    source: &SourceInfo,
    width: u32,
    height: u32,
    tile_size: u32,
    window: Option<WriteWindow>,
) -> (parts: Vec<SourceTile>)
    requires
        source.well_formed(),
        tile_size > 0,
        part_width(*source, tile_size) > 0,
        part_height(*source, tile_size) > 0,
        width + part_width(*source, tile_size) <= usize::MAX,
        height + part_height(*source, tile_size) <= usize::MAX,
        height + source.base().rows_per_strip + 1 <= usize::MAX,
        tile_count(width as nat, height as nat, tile_size as nat) <= usize::MAX,
    ensures
        are_parts(*source, width, height, tile_size, window, parts@),
{
    match stream_base_layer_to_spool(source, tile_size as usize, window) {
        BaseLayerPath::SourceTiles => {
            let ifd: IfdInfo = source.ifds[source.base_ifd];
            let (tile_width, tile_height): (usize, usize) = source_tile_size(&ifd, tile_size);
            plan_source_tiles(width, height, tile_size, tile_width as u32, tile_height as u32)
        },
        BaseLayerPath::StripWindows { rows_per_strip } => {
            let windows: Vec<StripWindow> = plan_strip_windows(
                width,
                height,
                tile_size,
                rows_per_strip,
            );
            let mut parts: Vec<SourceTile> = Vec::new();
            let mut k: usize = 0;
            while k < windows.len()
                invariant
                    k <= windows@.len(),
                    are_strip_windows(
                        windows@,
                        width as nat,
                        height as nat,
                        tile_size as nat,
                        rows_per_strip as int,
                    ),
                    parts@.len() == k,
                    forall|i: int|
                        0 <= i < k ==> is_window_part(#[trigger] parts@[i], windows@[i], width),
                decreases windows@.len() - k,
            {
                parts.push(window_part(&windows[k], width));
                k = k + 1;
            }
            parts
        },
        BaseLayerPath::RowGroups => Vec::new(),
    }
}

/// The parts by which the full-size image is decoded, where every output tile lies within the
/// part that it is cut from. Elsewhere it is read by rows of output tiles.
pub fn plan_base_parts(
    source: &SourceInfo,
    width: u32,
    height: u32,
    tile_size: u32,
    window: Option<WriteWindow>,
) -> (parts: Option<Vec<SourceTile>>)
    requires
        source.well_formed(),
        tile_size > 0,
        part_width(*source, tile_size) > 0,
        part_height(*source, tile_size) > 0,
        width + part_width(*source, tile_size) <= usize::MAX,
        height + part_height(*source, tile_size) <= usize::MAX,
        height + source.base().rows_per_strip + 1 <= usize::MAX,
        tile_count(width as nat, height as nat, tile_size as nat) <= usize::MAX,
    ensures
        match parts {
            Some(found) => {
                &&& base_path(*source, tile_size as int, window) != BaseLayerPath::RowGroups
                &&& are_parts(*source, width, height, tile_size, window, found@)
                &&& parts_hold(width as nat, height as nat, tile_size as nat, found@)
            },
            None => base_path(*source, tile_size as int, window) == BaseLayerPath::RowGroups
                || exists|others: Seq<SourceTile>| #[trigger]
                are_parts(*source, width, height, tile_size, window, others) && !parts_hold(
                    width as nat,
                    height as nat,
                    tile_size as nat,
                    others,
                ),
        },
{
    if stream_base_layer_to_spool(source, tile_size as usize, window) == BaseLayerPath::RowGroups {
        return None;
    }
    let parts: Vec<SourceTile> = find_parts(source, width, height, tile_size, window);
    let jobs: Vec<TileJob> = tile_jobs(width, height, tile_size);
    let mut k: usize = 0;
    while k < parts.len()
        invariant
            k <= parts@.len(),
            tile_size > 0,
            jobs@ == tile_grid(width as nat, height as nat, tile_size as nat),
            jobs@.len() == tile_count(width as nat, height as nat, tile_size as nat),
            are_parts(*source, width, height, tile_size, window, parts@),
            forall|i: int|
                0 <= i < k ==> part_holds(
                    width as nat,
                    height as nat,
                    tile_size as nat,
                    #[trigger] parts@[i],
                ),
        decreases parts@.len() - k,
    {
        if !holds_tiles(width, height, &jobs, tile_size, &parts[k]) {
            assert(!parts_hold(width as nat, height as nat, tile_size as nat, parts@));
            return None;
        }
        k = k + 1;
    }
    Some(parts)
}

/// Every output tile is cut from some part.
pub proof fn law_every_tile_has_a_part(
    source: SourceInfo,
    width: u32,
    height: u32,
    tile_size: u32,
    window: Option<WriteWindow>,
    parts: Seq<SourceTile>,
    index: usize,
)
    requires
        tile_size > 0,
        part_width(source, tile_size) > 0,
        part_height(source, tile_size) > 0,
        are_parts(source, width, height, tile_size, window, parts),
        !(base_path(source, tile_size as int, window) is RowGroups),
        index < tile_count(width as nat, height as nat, tile_size as nat) <= usize::MAX,
    ensures
        exists|k: int| 0 <= k < parts.len() && (#[trigger] parts[k]).blocks@.contains(index),
{
    let w = width as nat;
    let h = height as nat;
    let tile = tile_size as nat;
    let job = tile_job_at(w, h, tile, index as int);
    lemma_job_row(w, h, tile, index as int);
    match base_path(source, tile_size as int, window) {
        BaseLayerPath::SourceTiles => {
            let tile_width = part_width(source, tile_size);
            let tile_height = part_height(source, tile_size);
            let x = job.col_off as int;
            let y = job.row_off as int;
            lemma_tile_of_pixel(w, w, tile_width as nat, x, x);
            lemma_tile_of_pixel(h, h, tile_height as nat, y, y);
            let across = ceil_div(w, tile_width as nat) as int;
            let down = ceil_div(h, tile_height as nat) as int;
            let row = y / tile_height as int;
            let col = x / tile_width as int;
            lemma_grid_index(row, col, across, down);
            let k = row * across + col;
            assert(is_source_tile(
                parts[k],
                width,
                height,
                tile_size,
                tile_width as int,
                tile_height as int,
                k,
            ));
            law_source_tiles_hold_their_pixels(
                width as int,
                height as int,
                tile_width as int,
                tile_height as int,
                x,
                y,
            );
            law_overlapping_areas_share_a_pixel(job, parts[k].area, x, y);
            law_overlapping_is_exact(
                tile_grid(w, h, tile),
                parts[k].area,
                tile_count(w, h, tile) as int,
                index,
            );
            assert(parts[k].blocks@.contains(index));
        },
        BaseLayerPath::StripWindows { rows_per_strip } => {
            let windows = choose|windows: Seq<StripWindow>|
                #[trigger]
                are_strip_windows(windows, w, h, tile, rows_per_strip as int) && parts.len()
                    == windows.len() && forall|k: int|
                    0 <= k < parts.len() ==> is_window_part(#[trigger] parts[k], windows[k], width);
            let k = window_of_block(windows, w, h, tile, rows_per_strip as int, index as int,
                windows.len() as int);
            assert(is_window_part(parts[k], windows[k], width));
            let blocks = parts[k].blocks@;
            assert(blocks[index - windows[k].first_block] == index);
            assert(parts[k].blocks@.contains(index));
        },
        BaseLayerPath::RowGroups => {},
    }
}

/// The window of the first `end` that a block belongs to.
proof fn window_of_block(
    windows: Seq<StripWindow>,
    width: nat,
    height: nat,
    tile: nat,
    rows_per_strip: int,
    index: int,
    end: int,
) -> (k: int)
    requires
        are_strip_windows(windows, width, height, tile, rows_per_strip),
        0 <= end <= windows.len(),
        0 <= index < (if end == 0 {
            0
        } else {
            windows[end - 1].end_block as int
        }),
    ensures
        0 <= k < end,
        windows[k].first_block <= index < windows[k].end_block,
    decreases end,
{
    let last = windows[end - 1];
    if index < last.first_block {
        window_of_block(windows, width, height, tile, rows_per_strip, index, end - 1)
    } else {
        end - 1
    }
}

/// Where parts hold their tiles, every pixel of a tile lies in the part that the tile is cut
/// from.
pub proof fn law_parts_hold_pixels_of_their_tiles(
    width: nat,
    height: nat,
    tile: nat,
    parts: Seq<SourceTile>,
    k: int,
    block: int,
    x: int,
    y: int,
)
    requires
        parts_hold(width, height, tile, parts),
        0 <= k < parts.len(),
        0 <= block < parts[k].blocks@.len(),
        tile_job_at(width, height, tile, parts[k].blocks@[block] as int).covers(x, y),
    ensures
        parts[k].area.covers(x, y),
{
    assert(part_holds(width, height, tile, parts[k]));
    assert(parts[k].blocks@[block] < tile_count(width, height, tile));
}

/// A window of strips reaches over the whole width, from its first row on, and its tiles are
/// those from its first block to its last.
pub proof fn law_window_parts_span_the_raster(
    part: SourceTile,
    window: StripWindow,
    width: u32,
    x: int,
    y: int,
    block: usize,
)
    requires
        is_window_part(part, window, width),
        window.first_block <= window.end_block,
    ensures
        part.area.covers(x, y) <==> 0 <= x < width && window.row_start <= y < window.row_start
            + window.row_count,
        part.blocks@.contains(block) <==> window.first_block <= block < window.end_block,
{
    if window.first_block <= block < window.end_block {
        assert(part.blocks@[block - window.first_block] == block);
    }
}

} // verus!
