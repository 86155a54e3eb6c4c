//! The validity of every pixel of a raster, put together from tiles.
use crate::arith::{ceil_div, lemma_mul_bound};
use crate::cog::grid::{law_tiles_partition_raster, tile_count, tile_grid, tile_job_at, TileJob};
use crate::cog::semantics::{alpha_band, associated_alpha_band_index, bands_countable};
use crate::crop::WriteWindow;
use crate::encode::decode::lemma_job_row;
use crate::footprint::options::{
    kind_of_samples, nodata_kind, NodataKind, NodataValue, ResolvedValiditySource,
};
use crate::footprint::tile_samples::{
    bytes_tell, pixel_valid, tile_validity, MissingValue, Pixel, TileSamples,
};
use crate::input::profile::RasterProfile;
use crate::raster::{build2, lemma_cell2, sample2, Grid2, Grid3};
use vstd::prelude::*;

verus! {

/// One byte for each pixel, row by row: zero where it is invalid.
#[derive(Debug)]
pub struct ValidityMask {
    pub width: usize,
    pub height: usize,
    pub bytes: Vec<u8>,
}

/// How many bytes are not zero.
pub open spec fn count_valid(bytes: Seq<u8>) -> nat
    decreases bytes.len(),
{
    if bytes.len() == 0 {
        0
    } else {
        count_valid(bytes.drop_last()) + (if bytes.last() != 0 {
            1nat
        } else {
            0nat
        })
    }
}

proof fn lemma_count_valid(bytes: Seq<u8>)
    ensures
        count_valid(bytes) <= bytes.len(),
        count_valid(bytes) == bytes.len() <==> forall|i: int|
            0 <= i < bytes.len() ==> #[trigger] bytes[i] != 0,
        count_valid(bytes) == 0 <==> forall|i: int| 0 <= i < bytes.len() ==> #[trigger] bytes[i] == 0,
    decreases bytes.len(),
{
    if bytes.len() > 0 {
        let front = bytes.drop_last();
        let n = front.len() as int;
        lemma_count_valid(front);
        assert(bytes.last() == bytes[n]);
        assert forall|i: int| 0 <= i < n implies #[trigger] front[i] == bytes[i] by {}
        if count_valid(bytes) == bytes.len() {
            assert forall|i: int| 0 <= i < bytes.len() implies #[trigger] bytes[i] != 0 by {
                if i < n {
                    assert(front[i] != 0);
                }
            }
        }
        if forall|i: int| 0 <= i < bytes.len() ==> #[trigger] bytes[i] != 0 {
            assert forall|i: int| 0 <= i < n implies #[trigger] front[i] != 0 by {
                assert(bytes[i] != 0);
            }
            assert(bytes[n] != 0);
        }
        if count_valid(bytes) == 0 {
            assert forall|i: int| 0 <= i < bytes.len() implies #[trigger] bytes[i] == 0 by {
                if i < n {
                    assert(front[i] == 0);
                }
            }
        }
        if forall|i: int| 0 <= i < bytes.len() ==> #[trigger] bytes[i] == 0 {
            assert forall|i: int| 0 <= i < n implies #[trigger] front[i] == 0 by {
                assert(bytes[i] == 0);
            }
            assert(bytes[n] == 0);
        }
    }
}

impl ValidityMask {
    /// All bytes, row by row.
    pub open spec fn content(&self) -> Seq<u8> {
        self.bytes@
    }

    /// There is one byte for each pixel.
    pub open spec fn well_formed(&self) -> bool {
        self.bytes@.len() == self.width * self.height
    }

    /// The byte of the pixel in column `col` of row `row`.
    pub open spec fn at(&self, row: int, col: int) -> u8 {
        sample2(self.content(), self.width as int, row, col)
    }

    /// Whether the pixel exists.
    pub open spec fn has(&self, row: int, col: int) -> bool {
        0 <= row < self.height && 0 <= col < self.width
    }

    /// A mask with the same byte everywhere.
    pub fn filled(width: usize, height: usize, value: u8) -> (mask: Self)
        requires
            width * height <= usize::MAX,
        ensures
            mask.well_formed(),
            mask.width == width,
            mask.height == height,
            mask.content() == Seq::new((width * height) as nat, |i: int| value),
    {
        let count: usize = width * height;
        let mut bytes: Vec<u8> = Vec::new();
        let mut i: usize = 0;
        while i < count
            invariant
                i <= count,
                bytes@.len() == i,
                forall|j: int| 0 <= j < i ==> #[trigger] bytes@[j] == value,
            decreases count - i,
        {
            bytes.push(value);
            i = i + 1;
        }
        assert(bytes@ =~= Seq::new((width * height) as nat, |j: int| value));
        ValidityMask { width, height, bytes }
    }

    /// All bytes, row by row.
    pub fn as_slice(&self) -> (bytes: &[u8])
        ensures
            bytes@ == self.content(),
    {
        self.bytes.as_slice()
    }

    /// How many pixels are valid.
    pub fn valid_count(&self) -> (count: usize)
        ensures
            count == count_valid(self.content()),
    {
        let mut count: usize = 0;
        let mut i: usize = 0;
        assert(self.bytes@.take(0) =~= Seq::<u8>::empty());
        while i < self.bytes.len()
            invariant
                i <= self.bytes@.len(),
                count == count_valid(self.bytes@.take(i as int)),
                count <= i,
            decreases self.bytes@.len() - i,
        {
            proof {
                let next = self.bytes@.take(i + 1);
                assert(next.drop_last() =~= self.bytes@.take(i as int));
                assert(next.last() == self.bytes@[i as int]);
            }
            if self.bytes[i] != 0 {
                count = count + 1;
            }
            i = i + 1;
        }
        assert(self.bytes@.take(i as int) =~= self.bytes@);
        count
    }

    /// Whether every pixel is valid.
    pub fn all_valid(&self) -> (all: bool)
        requires
            self.well_formed(),
        ensures
            all <==> forall|r: int, c: int| self.has(r, c) ==> #[trigger] self.at(r, c) != 0,
    {
        let count: usize = self.valid_count();
        let length: usize = self.bytes.len();
        proof {
            lemma_count_valid(self.bytes@);
            self.lemma_cells();
        }
        count == self.width * self.height
    }

    /// Whether no pixel is valid.
    pub fn none_valid(&self) -> (none: bool)
        requires
            self.well_formed(),
        ensures
            none <==> forall|r: int, c: int| self.has(r, c) ==> #[trigger] self.at(r, c) == 0,
    {
        let count: usize = self.valid_count();
        proof {
            lemma_count_valid(self.bytes@);
            self.lemma_cells();
        }
        count == 0
    }

    proof fn lemma_cells(&self)
        requires
            self.well_formed(),
        ensures
            (forall|r: int, c: int| self.has(r, c) ==> #[trigger] self.at(r, c) != 0)
                <==> forall|i: int| 0 <= i < self.bytes@.len() ==> #[trigger] self.bytes@[i] != 0,
            (forall|r: int, c: int| self.has(r, c) ==> #[trigger] self.at(r, c) == 0)
                <==> forall|i: int| 0 <= i < self.bytes@.len() ==> #[trigger] self.bytes@[i] == 0,
    {
        let w = self.width as int;
        let h = self.height as int;
        assert(w * h == h * w) by (nonlinear_arith);
        assert forall|r: int, c: int| self.has(r, c) implies 0 <= r * w + c < self.bytes@.len()
            && #[trigger] self.at(r, c) == self.bytes@[r * w + c] by {
            lemma_cell2(h, w, r, c);
        }
        assert forall|i: int| 0 <= i < self.bytes@.len() implies self.has(i / w, i % w)
            && #[trigger] self.bytes@[i] == self.at(i / w, i % w) by {
            crate::arith::lemma_grid_split(i, w, h);
        }
        if forall|r: int, c: int| self.has(r, c) ==> #[trigger] self.at(r, c) != 0 {
            assert forall|i: int| 0 <= i < self.bytes@.len() implies #[trigger] self.bytes@[i]
                != 0 by {
                crate::arith::lemma_grid_split(i, w, h);
                assert(self.has(i / w, i % w));
                assert(self.at(i / w, i % w) != 0);
            }
        }
        if forall|r: int, c: int| self.has(r, c) ==> #[trigger] self.at(r, c) == 0 {
            assert forall|i: int| 0 <= i < self.bytes@.len() implies #[trigger] self.bytes@[i]
                == 0 by {
                crate::arith::lemma_grid_split(i, w, h);
                assert(self.has(i / w, i % w));
                assert(self.at(i / w, i % w) == 0);
            }
        }
    }

    /// A mask whose pixels have zero or one as their bytes has no other bytes.
    pub proof fn lemma_told(&self)
        requires
            self.well_formed(),
            forall|r: int, c: int| self.has(r, c) ==> #[trigger] self.at(r, c) <= 1,
        ensures
            forall|i: int| 0 <= i < self.content().len() ==> #[trigger] self.content()[i] <= 1,
    {
        let w = self.width as int;
        let h = self.height as int;
        assert(w * h == h * w) by (nonlinear_arith);
        assert forall|i: int| 0 <= i < self.content().len() implies #[trigger] self.content()[i]
            <= 1 by {
            crate::arith::lemma_grid_split(i, w, h);
            assert(self.has(i / w, i % w));
            assert(self.at(i / w, i % w) <= 1);
        }
    }

    /// Puts the bytes of a tile in their place; `tile` has `cols` bytes in each row.
    pub fn write_tile(&mut self, job: &TileJob, tile: &Vec<u8>, cols: usize)
        requires
            old(self).well_formed(),
            job.row_off + job.rows <= old(self).height,
            job.col_off + job.cols <= old(self).width,
            job.cols <= cols,
            tile@.len() == job.rows * cols,
        ensures
            final(self).well_formed(),
            final(self).width == old(self).width,
            final(self).height == old(self).height,
            forall|r: int, c: int|
                final(self).has(r, c) ==> #[trigger] final(self).at(r, c) == (if job.covers(c, r) {
                    sample2(tile@, cols as int, r - job.row_off, c - job.col_off)
                } else {
                    old(self).at(r, c)
                }),
    {
        let length: usize = self.bytes.len();
        let tile_length: usize = tile.len();
        let ghost w = self.width as int;
        let ghost h = self.height as int;
        proof {
            assert(w * h == h * w) by (nonlinear_arith);
        }
        let mut row: usize = 0;
        while row < job.rows
            invariant
                row <= job.rows,
                length == self.bytes@.len(),
                tile_length == tile@.len(),
                self.bytes@.len() == h * w,
                self.well_formed(),
                self.width == old(self).width,
                self.height == old(self).height,
                w == self.width,
                h == self.height,
                job.row_off + job.rows <= h,
                job.col_off + job.cols <= w,
                job.cols <= cols,
                tile@.len() == job.rows * cols,
                forall|r: int, c: int|
                    self.has(r, c) ==> #[trigger] self.at(r, c) == (if job.covers(c, r) && r
                        < job.row_off + row {
                        sample2(tile@, cols as int, r - job.row_off, c - job.col_off)
                    } else {
                        old(self).at(r, c)
                    }),
            decreases job.rows - row,
        {
            let dst_row: usize = job.row_off + row;
            let mut col: usize = 0;
            while col < job.cols
                invariant
                    row < job.rows,
                    col <= job.cols,
                    dst_row == job.row_off + row,
                    length == self.bytes@.len(),
                    tile_length == tile@.len(),
                    self.bytes@.len() == h * w,
                    self.well_formed(),
                    self.width == old(self).width,
                    self.height == old(self).height,
                    w == self.width,
                    h == self.height,
                    job.row_off + job.rows <= h,
                    job.col_off + job.cols <= w,
                    job.cols <= cols,
                    tile@.len() == job.rows * cols,
                    forall|r: int, c: int|
                        self.has(r, c) ==> #[trigger] self.at(r, c) == (if job.covers(c, r) && (r
                            < dst_row || (r == dst_row && c < job.col_off + col)) {
                            sample2(tile@, cols as int, r - job.row_off, c - job.col_off)
                        } else {
                            old(self).at(r, c)
                        }),
                decreases job.cols - col,
            {
                let ghost before = *self;
                proof {
                    lemma_cell2(h, w, dst_row as int, job.col_off + col);
                    lemma_mul_bound(dst_row as int, w, h, w);
                    lemma_cell2(job.rows as int, cols as int, row as int, col as int);
                    lemma_mul_bound(row as int, cols as int, job.rows as int, cols as int);
                }
                let value: u8 = tile[row * cols + col];
                let index: usize = dst_row * self.width + (job.col_off + col);
                self.bytes.set(index, value);
                proof {
                    assert forall|r: int, c: int| self.has(r, c) implies #[trigger] self.at(r, c)
                        == (if r == dst_row && c == job.col_off + col {
                        value
                    } else {
                        before.at(r, c)
                    }) by {
                        lemma_cell2(h, w, r, c);
                    }
                    assert forall|r: int, c: int| self.has(r, c) implies #[trigger] self.at(r, c)
                        == (if job.covers(c, r) && (r < dst_row || (r == dst_row && c < job.col_off
                        + col + 1)) {
                        sample2(tile@, cols as int, r - job.row_off, c - job.col_off)
                    } else {
                        old(self).at(r, c)
                    }) by {
                        assert(before.has(r, c));
                        assert(before.at(r, c) == before.at(r, c));
                    }
                }
                col = col + 1;
            }
            row = row + 1;
        }
    }
}

/// Width and height of a mask: those of the window, else of the raster.
pub open spec fn mask_size(profile: RasterProfile, window: Option<WriteWindow>) -> (
    usize,
    usize,
) {
    match window {
        Some(win) => (win.width, win.height),
        None => (profile.width as usize, profile.height as usize),
    }
}

/// Width and height of a mask.
pub fn output_dimensions(profile: &RasterProfile, window: Option<WriteWindow>) -> (size: (
    usize,
    usize,
))
    ensures
        size == mask_size(*profile, window),
{
    match window {
        Some(win) => (win.width, win.height),
        None => (profile.width as usize, profile.height as usize),
    }
}

/// Column and row of the raster where a tile starts.
pub fn source_origin(window: Option<WriteWindow>, job: &TileJob) -> (origin: (usize, usize))
    requires
        window matches Some(win) ==> win.col_off + job.col_off <= usize::MAX && win.row_off
            + job.row_off <= usize::MAX,
    ensures
        match window {
            Some(win) => origin.0 == win.col_off + job.col_off && origin.1 == win.row_off
                + job.row_off,
            None => origin == (job.col_off, job.row_off),
        },
{
    match window {
        Some(win) => (win.col_off + job.col_off, win.row_off + job.row_off),
        None => (job.col_off, job.row_off),
    }
}

/// The tiles are those of the raster, each with a byte for each of its pixels.
pub open spec fn tiles_complete(width: nat, height: nat, tile: nat, tiles: Seq<Vec<u8>>) -> bool {
    &&& tiles.len() == tile_count(width, height, tile)
    &&& forall|i: int|
        0 <= i < tiles.len() ==> (#[trigger] tiles[i])@.len() == tile_job_at(
            width,
            height,
            tile,
            i,
        ).rows * tile_job_at(width, height, tile, i).cols
}

/// The byte of the pixel in column `col` of row `row`, taken from its tile.
pub open spec fn tile_byte(
    width: nat,
    height: nat,
    tile: nat,
    tiles: Seq<Vec<u8>>,
    row: int,
    col: int,
) -> u8 {
    let index = tile_index(width, tile, row, col);
    let job = tile_job_at(width, height, tile, index);
    sample2(tiles[index]@, job.cols as int, row - job.row_off, col - job.col_off)
}

/// What was read of the pixel in column `col` of row `row` of a mask, taken from its tile.
pub open spec fn tile_pixel(
    width: nat,
    height: nat,
    tile: nat,
    tiles: Seq<TileSamples>,
    row: int,
    col: int,
) -> Pixel {
    let index = tile_index(width, tile, row, col);
    let job = tile_job_at(width, height, tile, index);
    tiles[index].pixel(row - job.row_off, col - job.col_off)
}

/// Whether what was read for a tile tells its valid pixels.
pub open spec fn tile_told(
    width: nat,
    height: nat,
    tile: nat,
    tiles: Seq<TileSamples>,
    read: ValidityRead,
    missing: Option<MissingValue>,
    index: int,
) -> bool {
    let job = tile_job_at(width, height, tile, index);
    tiles[index].tells(read, missing, job.rows as int, job.cols as int)
}

/// Whether a mask has the size of the converted part of a raster, and says of each pixel
/// whether it is valid: all are where nothing tells them apart.
pub open spec fn is_validity_mask(
    mask: ValidityMask,
    profile: RasterProfile,
    source: ResolvedValiditySource,
    missing: Option<MissingValue>,
    window: Option<WriteWindow>,
    tile: nat,
    tiles: Seq<TileSamples>,
) -> bool {
    &&& mask.well_formed()
    &&& mask.width == mask_size(profile, window).0
    &&& mask.height == mask_size(profile, window).1
    &&& forall|r: int, c: int|
        mask.has(r, c) ==> #[trigger] mask.at(r, c) == validity_byte(
            source == ResolvedValiditySource::Full || pixel_valid(
                tile_pixel(mask.width as nat, mask.height as nat, tile, tiles, r, c),
                missing,
            ),
        )
}

/// The valid pixels of the converted part of a raster. They are told from what was read for
/// the tiles, in the order of the tile grid; nothing is read where all pixels are valid.
pub fn build_validity_mask(
    has_masks: bool,
    profile: &RasterProfile,
    source: ResolvedValiditySource,
    missing: Option<MissingValue>,
    window: Option<WriteWindow>,
    tile_size: u32,
    tiles: &Vec<TileSamples>,
) -> (result: Result<ValidityMask, ValidityReadError>)
    requires
        bands_countable(*profile),
        mask_size(*profile, window).0 * mask_size(*profile, window).1 <= usize::MAX,
        source != ResolvedValiditySource::Full ==> {
            let size = mask_size(*profile, window);
            &&& tile_size > 0
            &&& size.0 <= u32::MAX
            &&& size.1 <= u32::MAX
            &&& tile_count(size.0 as nat, size.1 as nat, tile_size as nat) <= usize::MAX
        },
    ensures
        result matches Ok(mask) ==> {
            &&& is_validity_mask(
                mask,
                *profile,
                source,
                missing,
                window,
                tile_size as nat,
                tiles@,
            )
            &&& forall|i: int| 0 <= i < mask.content().len() ==> #[trigger] mask.content()[i] <= 1
        },
        source == ResolvedValiditySource::Full ==> result is Ok,
        source != ResolvedValiditySource::Full ==> {
            let width = mask_size(*profile, window).0 as nat;
            let height = mask_size(*profile, window).1 as nat;
            let tile = tile_size as nat;
            let count = tile_count(width, height, tile);
            if tiles@.len() != count {
                result matches Err(ValidityReadError::UnexpectedTiles { expected, found })
                    && expected == count && found == tiles@.len()
            } else if count == 0 {
                result is Ok
            } else {
                match validity_read(has_masks, *profile, source, missing is Some) {
                    Err(error) => result matches Err(reason) && reason == error,
                    Ok(read) => match result {
                        Ok(_) => forall|i: int|
                            0 <= i < count ==> #[trigger] tile_told(
                                width,
                                height,
                                tile,
                                tiles@,
                                read,
                                missing,
                                i,
                            ),
                        Err(reason) => reason matches ValidityReadError::UnexpectedTile { index }
                            && index < count && !tile_told(
                            width,
                            height,
                            tile,
                            tiles@,
                            read,
                            missing,
                            index as int,
                        ) && forall|i: int|
                            0 <= i < index ==> #[trigger] tile_told(
                                width,
                                height,
                                tile,
                                tiles@,
                                read,
                                missing,
                                i,
                            ),
                    },
                }
            }
        },
{
    let (width, height): (usize, usize) = output_dimensions(profile, window);
    if source == ResolvedValiditySource::Full {
        let mask: ValidityMask = ValidityMask::filled(width, height, 1);
        proof {
            assert(width * height == height * width) by (nonlinear_arith);
            assert forall|r: int, c: int| mask.has(r, c) implies #[trigger] mask.at(r, c) == 1 by {
                lemma_cell2(height as int, width as int, r, c);
            }
        }
        return Ok(mask);
    }
    let jobs: Vec<TileJob> = crate::cog::grid::tile_jobs(width as u32, height as u32, tile_size);
    let ghost w = width as nat;
    let ghost h = height as nat;
    let ghost t = tile_size as nat;
    if tiles.len() != jobs.len() {
        return Err(
            ValidityReadError::UnexpectedTiles { expected: jobs.len(), found: tiles.len() },
        );
    }
    let mut bytes: Vec<Vec<u8>> = Vec::new();
    if tiles.len() > 0 {
        let read: ValidityRead = match read_validity_tile(
            has_masks,
            profile,
            source,
            missing.is_some(),
        ) {
            Err(error) => {
                return Err(error);
            },
            Ok(read) => read,
        };
        let mut i: usize = 0;
        while i < tiles.len()
            invariant
                i <= tiles@.len(),
                tiles@.len() == jobs@.len(),
                source != ResolvedValiditySource::Full,
                (width, height) == mask_size(*profile, window),
                validity_read(has_masks, *profile, source, missing is Some) == Ok::<
                    ValidityRead,
                    ValidityReadError,
                >(read),
                w == width,
                h == height,
                w <= u32::MAX,
                h <= u32::MAX,
                t == tile_size > 0,
                w * h <= usize::MAX,
                jobs@ == tile_grid(w, h, t),
                jobs@.len() == tile_count(w, h, t),
                bytes@.len() == i,
                forall|k: int|
                    0 <= k < i ==> #[trigger] tile_told(w, h, t, tiles@, read, missing, k),
                forall|k: int|
                    0 <= k < i ==> bytes_tell(
                        (#[trigger] bytes@[k])@,
                        tiles@[k],
                        missing,
                        tile_job_at(w, h, t, k).rows as int,
                        tile_job_at(w, h, t, k).cols as int,
                    ),
            decreases tiles@.len() - i,
        {
            let job: TileJob = jobs[i];
            proof {
                lemma_job_row(w, h, t, i as int);
                assert(job == tile_job_at(w, h, t, i as int));
                lemma_job_fits(w as int, h as int, job);
            }
            match tile_validity(&tiles[i], read, missing, job.rows, job.cols) {
                None => {
                    assert(!tile_told(w, h, t, tiles@, read, missing, i as int));
                    return Err(ValidityReadError::UnexpectedTile { index: i });
                },
                Some(told) => {
                    assert(tile_told(w, h, t, tiles@, read, missing, i as int));
                    bytes.push(told);
                },
            }
            i = i + 1;
        }
    }
    let mask: ValidityMask = assemble_mask(width as u32, height as u32, tile_size, &bytes);
    proof {
        assert forall|r: int, c: int| mask.has(r, c) implies #[trigger] mask.at(r, c)
            == validity_byte(
            source == ResolvedValiditySource::Full || pixel_valid(
                tile_pixel(w, h, t, tiles@, r, c),
                missing,
            ),
        ) by {
            law_tiles_partition_raster(w, h, t, c, r);
            let index = tile_index(w, t, r, c);
            let job = tile_job_at(w, h, t, index);
            assert(tile_grid(w, h, t)[index].covers(c, r));
            assert(bytes_tell(
                bytes@[index]@,
                tiles@[index],
                missing,
                job.rows as int,
                job.cols as int,
            ));
            assert(sample2(bytes@[index]@, job.cols as int, r - job.row_off, c - job.col_off)
                == validity_byte(
                pixel_valid(tiles@[index].pixel(r - job.row_off, c - job.col_off), missing),
            ));
        }
        mask.lemma_told();
    }
    Ok(mask)
}

proof fn lemma_job_fits(width: int, height: int, job: TileJob)
    requires
        width * height <= usize::MAX,
        job.col_off + job.cols <= width,
        job.row_off + job.rows <= height,
    ensures
        job.rows * job.cols <= usize::MAX,
{
    lemma_mul_bound(job.cols as int, job.rows as int, width, height);
    assert(job.rows * job.cols == job.cols * job.rows) by (nonlinear_arith);
}

/// Whether what was read for each tile shows the pixels of a raster at the tile's place in
/// it, which starts where the window does.
pub open spec fn tiles_show(
    raster: spec_fn(int, int) -> Pixel,
    window: Option<WriteWindow>,
    width: nat,
    height: nat,
    tile: nat,
    tiles: Seq<TileSamples>,
) -> bool {
    &&& tiles.len() == tile_count(width, height, tile)
    &&& forall|i: int, r: int, c: int|
        #![trigger tiles[i].pixel(r, c)]
        0 <= i < tiles.len() && 0 <= r < tile_job_at(width, height, tile, i).rows && 0 <= c
            < tile_job_at(width, height, tile, i).cols ==> tiles[i].pixel(r, c) == raster(
            window_corner(window).1 + tile_job_at(width, height, tile, i).row_off + r,
            window_corner(window).0 + tile_job_at(width, height, tile, i).col_off + c,
        )
}

/// Column and row of the raster where a mask starts.
pub open spec fn window_corner(window: Option<WriteWindow>) -> (int, int) {
    match window {
        Some(win) => (win.col_off as int, win.row_off as int),
        None => (0, 0),
    }
}

/// The size of the tiles only splits the reads: masks that are built with tiles of different
/// sizes of the same raster have the same size and the same bytes, each zero or one.
pub proof fn law_mask_does_not_depend_on_tile_size(
    raster: spec_fn(int, int) -> Pixel,
    profile: RasterProfile,
    source: ResolvedValiditySource,
    missing: Option<MissingValue>,
    window: Option<WriteWindow>,
    tile: u32,
    tiles: Seq<TileSamples>,
    mask: ValidityMask,
    other_tile: u32,
    other_tiles: Seq<TileSamples>,
    other_mask: ValidityMask,
)
    requires
        is_validity_mask(mask, profile, source, missing, window, tile as nat, tiles),
        is_validity_mask(
            other_mask,
            profile,
            source,
            missing,
            window,
            other_tile as nat,
            other_tiles,
        ),
        source != ResolvedValiditySource::Full ==> {
            let width = mask_size(profile, window).0 as nat;
            let height = mask_size(profile, window).1 as nat;
            &&& tile > 0
            &&& other_tile > 0
            &&& width <= u32::MAX
            &&& height <= u32::MAX
            &&& tiles_show(raster, window, width, height, tile as nat, tiles)
            &&& tiles_show(raster, window, width, height, other_tile as nat, other_tiles)
        },
    ensures
        mask.width == other_mask.width,
        mask.height == other_mask.height,
        mask.content() == other_mask.content(),
        forall|i: int| 0 <= i < mask.content().len() ==> #[trigger] mask.content()[i] <= 1,
{
    let width = mask.width as nat;
    let height = mask.height as nat;
    mask.lemma_told();
    assert(width * height == height * width) by (nonlinear_arith);
    assert forall|i: int| 0 <= i < mask.content().len() implies #[trigger] mask.content()[i]
        == other_mask.content()[i] by {
        crate::arith::lemma_grid_split(i, width as int, height as int);
        let row = i / width as int;
        let col = i % width as int;
        assert(mask.has(row, col) && other_mask.has(row, col));
        assert(mask.at(row, col) == mask.content()[i]);
        assert(other_mask.at(row, col) == other_mask.content()[i]);
        if source != ResolvedValiditySource::Full {
            lemma_tile_shows_pixel(raster, window, width, height, tile as nat, tiles, row, col);
            lemma_tile_shows_pixel(
                raster,
                window,
                width,
                height,
                other_tile as nat,
                other_tiles,
                row,
                col,
            );
        }
    }
    assert(mask.content() =~= other_mask.content());
}

proof fn lemma_tile_shows_pixel(
    raster: spec_fn(int, int) -> Pixel,
    window: Option<WriteWindow>,
    width: nat,
    height: nat,
    tile: nat,
    tiles: Seq<TileSamples>,
    row: int,
    col: int,
)
    requires
        width <= u32::MAX,
        height <= u32::MAX,
        0 < tile <= u32::MAX,
        tiles_show(raster, window, width, height, tile, tiles),
        0 <= row < height,
        0 <= col < width,
    ensures
        tile_pixel(width, height, tile, tiles, row, col) == raster(
            window_corner(window).1 + row,
            window_corner(window).0 + col,
        ),
{
    law_tiles_partition_raster(width, height, tile, col, row);
    let index = tile_index(width, tile, row, col);
    let job = tile_job_at(width, height, tile, index);
    assert(tile_grid(width, height, tile)[index].covers(col, row));
    assert(tiles[index].pixel(row - job.row_off, col - job.col_off) == raster(
        window_corner(window).1 + job.row_off + (row - job.row_off),
        window_corner(window).0 + job.col_off + (col - job.col_off),
    ));
}

/// Puts tiles together to a mask.
pub fn assemble_mask(
    width: u32,
    height: u32,
    tile_size: u32,
    tiles: &Vec<Vec<u8>>,
) -> (mask: ValidityMask)
    requires
        tile_size > 0,
        width * height <= usize::MAX,
        tile_count(width as nat, height as nat, tile_size as nat) <= usize::MAX,
        tiles_complete(width as nat, height as nat, tile_size as nat, tiles@),
    ensures
        mask.well_formed(),
        mask.width == width,
        mask.height == height,
        forall|r: int, c: int|
            mask.has(r, c) ==> #[trigger] mask.at(r, c) == tile_byte(
                width as nat,
                height as nat,
                tile_size as nat,
                tiles@,
                r,
                c,
            ),
{
    let jobs: Vec<TileJob> = crate::cog::grid::tile_jobs(width, height, tile_size);
    let mut mask: ValidityMask = ValidityMask::filled(width as usize, height as usize, 0);
    let ghost w = width as nat;
    let ghost h = height as nat;
    let ghost t = tile_size as nat;
    let mut i: usize = 0;
    while i < jobs.len()
        invariant
            i <= jobs@.len(),
            w == width,
            h == height,
            t == tile_size > 0,
            jobs@ == tile_grid(w, h, t),
            jobs@.len() == tile_count(w, h, t),
            tiles_complete(w, h, t, tiles@),
            mask.well_formed(),
            mask.width == width,
            mask.height == height,
            forall|r: int, c: int|
                mask.has(r, c) && tile_index(w, t, r, c) < i ==> #[trigger] mask.at(r, c)
                    == tile_byte(w, h, t, tiles@, r, c),
        decreases jobs@.len() - i,
    {
        let ghost before = mask;
        proof {
            lemma_job_row(w, h, t, i as int);
            assert(tiles@[i as int]@.len() == tile_job_at(w, h, t, i as int).rows * tile_job_at(
                w,
                h,
                t,
                i as int,
            ).cols);
        }
        mask.write_tile(&jobs[i], &tiles[i], jobs[i].cols);
        proof {
            assert forall|r: int, c: int|
                mask.has(r, c) && tile_index(w, t, r, c) < i + 1 implies #[trigger] mask.at(r, c)
                == tile_byte(w, h, t, tiles@, r, c) by {
                assert(before.has(r, c));
                law_tiles_partition_raster(w, h, t, c, r);
                assert(tile_grid(w, h, t)[i as int].covers(c, r) <==> i == tile_index(w, t, r, c));
            }
        }
        i = i + 1;
    }
    proof {
        assert forall|r: int, c: int| mask.has(r, c) implies #[trigger] mask.at(r, c) == tile_byte(
            w,
            h,
            t,
            tiles@,
            r,
            c,
        ) by {
            law_tiles_partition_raster(w, h, t, c, r);
        }
    }
    mask
}

/// The place in the grid of the tile that holds a pixel.
pub open spec fn tile_index(width: nat, tile: nat, row: int, col: int) -> int {
    row / tile as int * ceil_div(width, tile) as int + col / tile as int
}

/// What has to be read to tell the valid pixels of a tile.
#[derive(Debug, Clone, Copy, PartialEq, Eq, Structural)]
pub enum ValidityRead {
    /// Nothing: all pixels are valid.
    Nothing,
    /// The mask of the full-size image.
    DatasetMask,
    /// A band, counted from zero, of 8-bit samples or else of 16-bit samples.
    Alpha { band: usize, wide: bool },
    /// All bands, of 8-bit samples or else of 16-bit samples.
    Colors { wide: bool },
    /// The first band, of samples of this kind.
    Samples(NodataKind),
}

/// Why the valid pixels of a tile cannot be told.
#[derive(Debug, Clone, Copy, PartialEq, Eq, Structural)]
pub enum ValidityReadError {
    MissingMask,
    MissingAlphaBand,
    MissingNodata,
    /// There is not one read for each tile.
    UnexpectedTiles { expected: usize, found: usize },
    /// What was read for a tile does not tell its valid pixels.
    UnexpectedTile { index: usize },
}

/// What has to be read to tell the valid pixels of a tile.
pub open spec fn validity_read(
    has_masks: bool,
    profile: RasterProfile,
    source: ResolvedValiditySource,
    has_nodata: bool,
) -> Result<ValidityRead, ValidityReadError> {
    match source {
        ResolvedValiditySource::DatasetMask => if has_masks {
            Ok(ValidityRead::DatasetMask)
        } else {
            Err(ValidityReadError::MissingMask)
        },
        ResolvedValiditySource::AssociatedAlpha => match alpha_band(profile) {
            Some(band) => Ok(
                ValidityRead::Alpha {
                    band: (band - 1) as usize,
                    wide: profile.sample.bits_per_sample > 8,
                },
            ),
            None => Err(ValidityReadError::MissingAlphaBand),
        },
        ResolvedValiditySource::BlackRgb => if profile.sample.bits_per_sample <= 16 {
            Ok(ValidityRead::Colors { wide: profile.sample.bits_per_sample > 8 })
        } else {
            Ok(ValidityRead::Nothing)
        },
        ResolvedValiditySource::Nodata => if has_nodata {
            match nodata_kind(profile.sample.sample_format, profile.sample.bits_per_sample) {
                Some(kind) => Ok(ValidityRead::Samples(kind)),
                None => Ok(ValidityRead::Nothing),
            }
        } else {
            Err(ValidityReadError::MissingNodata)
        },
        ResolvedValiditySource::Full => Ok(ValidityRead::Nothing),
    }
}

/// What has to be read to tell the valid pixels of a tile.
pub fn read_validity_tile(
    has_masks: bool,
    profile: &RasterProfile,
    source: ResolvedValiditySource,
    has_nodata: bool,
) -> (result: Result<ValidityRead, ValidityReadError>)
    requires
        bands_countable(*profile),
    ensures
        result == validity_read(has_masks, *profile, source, has_nodata),
{
    match source {
        ResolvedValiditySource::DatasetMask => {
            if !has_masks {
                return Err(ValidityReadError::MissingMask);
            }
            Ok(ValidityRead::DatasetMask)
        },
        ResolvedValiditySource::AssociatedAlpha => match associated_alpha_band_index(profile) {
            None => Err(ValidityReadError::MissingAlphaBand),
            Some(band) => Ok(
                ValidityRead::Alpha { band: band - 1, wide: profile.sample.bits_per_sample > 8 },
            ),
        },
        ResolvedValiditySource::BlackRgb => {
            if profile.sample.bits_per_sample <= 8 {
                return Ok(ValidityRead::Colors { wide: false });
            }
            if profile.sample.bits_per_sample <= 16 {
                return Ok(ValidityRead::Colors { wide: true });
            }
            Ok(ValidityRead::Nothing)
        },
        ResolvedValiditySource::Nodata => {
            if !has_nodata {
                return Err(ValidityReadError::MissingNodata);
            }
            read_nodata_tile(profile)
        },
        ResolvedValiditySource::Full => Ok(ValidityRead::Nothing),
    }
}

/// What has to be read to tell the pixels of a tile that are not missing: the first band,
/// or nothing for samples among which missing data are not looked for.
pub fn read_nodata_tile(profile: &RasterProfile) -> (result: Result<
    ValidityRead,
    ValidityReadError,
>)
    ensures
        result == Ok::<ValidityRead, ValidityReadError>(
            match nodata_kind(profile.sample.sample_format, profile.sample.bits_per_sample) {
                Some(kind) => ValidityRead::Samples(kind),
                None => ValidityRead::Nothing,
            },
        ),
{
    match kind_of_samples(profile.sample.sample_format, profile.sample.bits_per_sample) {
        Some(kind) => Ok(ValidityRead::Samples(kind)),
        None => Ok(ValidityRead::Nothing),
    }
}

/// The byte of a pixel.
pub open spec fn validity_byte(valid: bool) -> u8 {
    if valid {
        1
    } else {
        0
    }
}

/// The byte that `valid` gives each sample.
pub fn validity_of<T: Copy, F: Fn(T) -> bool>(samples: &Vec<T>, valid: F) -> (bytes: Vec<u8>)
    requires
        forall|value: T| #[trigger] call_requires(valid, (value,)),
    ensures
        bytes@.len() == samples@.len(),
        forall|i: int|
            0 <= i < bytes@.len() ==> call_ensures(
                valid,
                (samples@[i],),
                (#[trigger] bytes@[i]) == 1,
            ) && bytes@[i] <= 1,
{
    let mut bytes: Vec<u8> = Vec::new();
    let mut i: usize = 0;
    while i < samples.len()
        invariant
            i <= samples@.len(),
            bytes@.len() == i,
            forall|value: T| #[trigger] call_requires(valid, (value,)),
            forall|j: int|
                0 <= j < i ==> call_ensures(valid, (samples@[j],), (#[trigger] bytes@[j]) == 1)
                    && bytes@[j] <= 1,
        decreases samples@.len() - i,
    {
        let is_valid: bool = valid(samples[i]);
        let byte: u8 = if is_valid {
            1
        } else {
            0
        };
        assert((byte == 1) == is_valid);
        bytes.push(byte);
        i = i + 1;
    }
    bytes
}

/// The validity of mask samples: valid where the sample is not zero.
pub fn mask_to_validity(samples: &Vec<u8>) -> (bytes: Vec<u8>)
    ensures
        bytes@ == samples@.map_values(|value: u8| validity_byte(value != 0)),
{
    let is_valid = |value: u8| -> (valid: bool)
        ensures
            valid == (value != 0),
        { value != 0 };
    let bytes: Vec<u8> = validity_of(samples, is_valid);
    assert(bytes@ =~= samples@.map_values(|value: u8| validity_byte(value != 0)));
    bytes
}

/// The validity of an 8-bit alpha band: valid where alpha is not zero.
pub fn alpha_to_validity(array: &Grid2<u8>) -> (bytes: Vec<u8>)
    ensures
        bytes@ == array.samples@.map_values(|value: u8| validity_byte(value > 0)),
{
    let bytes: Vec<u8> = mask_to_validity(&array.samples);
    assert(bytes@ =~= array.samples@.map_values(|value: u8| validity_byte(value > 0)));
    bytes
}

/// The validity of a 16-bit alpha band: valid where alpha is not zero.
pub fn alpha_u16_to_validity(array: &Grid2<u16>) -> (bytes: Vec<u8>)
    ensures
        bytes@ == array.samples@.map_values(|value: u16| validity_byte(value > 0)),
{
    let is_valid = |value: u16| -> (valid: bool)
        ensures
            valid == (value > 0),
        { value > 0 };
    let bytes: Vec<u8> = validity_of(&array.samples, is_valid);
    assert(bytes@ =~= array.samples@.map_values(|value: u16| validity_byte(value > 0)));
    bytes
}

/// The validity of an image of 8-bit samples: valid where a pixel is not black in its
/// first three bands.
pub fn black_rgb_u8_to_validity(array: &Grid3<u8>) -> (bytes: Vec<u8>)
    requires
        array.well_formed(),
        array.bands >= 3,
    ensures
        bytes@.len() == array.rows * array.cols,
        forall|r: int, c: int|
            0 <= r < array.rows && 0 <= c < array.cols ==> #[trigger] sample2(
                bytes@,
                array.cols as int,
                r,
                c,
            ) == validity_byte(
                !(array.at(r, c, 0) == 0 && array.at(r, c, 1) == 0 && array.at(r, c, 2) == 0),
            ),
{
    let rows: usize = array.rows;
    let cols: usize = array.cols;
    let length: usize = array.samples.len();
    proof {
        lemma_pixels_fit(rows as int, cols as int, array.bands as int);
    }
    let pick = |r: usize, c: usize| -> (value: u8)
        requires
            r < rows,
            c < cols,
        ensures
            value == validity_byte(
                !(array.at(r as int, c as int, 0) == 0 && array.at(r as int, c as int, 1) == 0
                    && array.at(r as int, c as int, 2) == 0),
            ),
        {
            if array.get(r, c, 0) == 0 && array.get(r, c, 1) == 0 && array.get(r, c, 2) == 0 {
                0
            } else {
                1
            }
        };
    build2(rows, cols, pick)
}

/// The validity of an image of 16-bit samples: valid where a pixel is not black in its
/// first three bands.
pub fn black_rgb_u16_to_validity(array: &Grid3<u16>) -> (bytes: Vec<u8>)
    requires
        array.well_formed(),
        array.bands >= 3,
    ensures
        bytes@.len() == array.rows * array.cols,
        forall|r: int, c: int|
            0 <= r < array.rows && 0 <= c < array.cols ==> #[trigger] sample2(
                bytes@,
                array.cols as int,
                r,
                c,
            ) == validity_byte(
                !(array.at(r, c, 0) == 0 && array.at(r, c, 1) == 0 && array.at(r, c, 2) == 0),
            ),
{
    let rows: usize = array.rows;
    let cols: usize = array.cols;
    let length: usize = array.samples.len();
    proof {
        lemma_pixels_fit(rows as int, cols as int, array.bands as int);
    }
    let pick = |r: usize, c: usize| -> (value: u8)
        requires
            r < rows,
            c < cols,
        ensures
            value == validity_byte(
                !(array.at(r as int, c as int, 0) == 0 && array.at(r as int, c as int, 1) == 0
                    && array.at(r as int, c as int, 2) == 0),
            ),
        {
            if array.get(r, c, 0) == 0 && array.get(r, c, 1) == 0 && array.get(r, c, 2) == 0 {
                0
            } else {
                1
            }
        };
    build2(rows, cols, pick)
}

proof fn lemma_pixels_fit(rows: int, cols: int, bands: int)
    requires
        0 <= rows,
        0 <= cols,
        1 <= bands,
    ensures
        0 <= rows * cols <= rows * cols * bands,
{
    assert(0 <= rows * cols) by (nonlinear_arith)
        requires
            0 <= rows,
            0 <= cols,
    ;
    let cells = rows * cols;
    assert(cells <= cells * bands) by (nonlinear_arith)
        requires
            0 <= cells,
            1 <= bands,
    ;
}

/// A sample that can be compared with a value for missing data.
pub trait NodataSample: Copy {
    /// Whether the sample is the value.
    spec fn is_missing(self, nodata: NodataValue) -> bool;

    fn missing(self, nodata: NodataValue) -> (missing: bool)
        ensures
            missing == self.is_missing(nodata),
    ;
}

impl NodataSample for u8 {
    open spec fn is_missing(self, nodata: NodataValue) -> bool {
        match nodata {
            NodataValue::I8(v) => self as i8 == v,
            _ => self == nodata.number(),
        }
    }

    fn missing(self, nodata: NodataValue) -> (missing: bool) {
        nodata.matches_u8(self)
    }
}

impl NodataSample for u16 {
    open spec fn is_missing(self, nodata: NodataValue) -> bool {
        match nodata {
            NodataValue::I8(v) => self as i16 == v,
            NodataValue::I16(v) => self as i16 == v,
            _ => self == nodata.number(),
        }
    }

    fn missing(self, nodata: NodataValue) -> (missing: bool) {
        nodata.matches_u16(self)
    }
}

impl NodataSample for i16 {
    open spec fn is_missing(self, nodata: NodataValue) -> bool {
        match nodata {
            NodataValue::U8(v) => self as u8 == v,
            NodataValue::U16(v) => self as u16 == v,
            NodataValue::U32(v) => self as u32 == v,
            _ => self == nodata.number(),
        }
    }

    fn missing(self, nodata: NodataValue) -> (missing: bool) {
        nodata.matches_i16(self)
    }
}

impl NodataSample for i8 {
    open spec fn is_missing(self, nodata: NodataValue) -> bool {
        (nodata is I8 || nodata is I16) && self == nodata.number()
    }

    fn missing(self, nodata: NodataValue) -> (missing: bool) {
        nodata.matches_i8(self)
    }
}

impl NodataSample for u32 {
    open spec fn is_missing(self, nodata: NodataValue) -> bool {
        nodata is U32 && self == nodata.number()
    }

    fn missing(self, nodata: NodataValue) -> (missing: bool) {
        nodata.matches_u32(self)
    }
}

impl NodataSample for i32 {
    open spec fn is_missing(self, nodata: NodataValue) -> bool {
        nodata is I32 && self == nodata.number()
    }

    fn missing(self, nodata: NodataValue) -> (missing: bool) {
        nodata.matches_i32(self)
    }
}

/// The validity of a band: valid where the sample is not the value for missing data.
pub fn nodata_to_validity<T: NodataSample>(samples: &Vec<T>, nodata: NodataValue) -> (bytes: Vec<u8>)
    ensures
        bytes@ == samples@.map_values(|value: T| validity_byte(!value.is_missing(nodata))),
{
    let is_valid = |value: T| -> (valid: bool)
        ensures
            valid == !value.is_missing(nodata),
        { !value.missing(nodata) };
    let bytes: Vec<u8> = validity_of(samples, is_valid);
    assert(bytes@ =~= samples@.map_values(|value: T| validity_byte(!value.is_missing(nodata))));
    bytes
}

/// A mask tells of each pixel of the converted part of a raster whether it is valid: the byte
/// in column `col` of row `row` is one exactly if the pixel that lies as far from the corner
/// of the window is valid, and zero if not. The mask has the size of the window, or of the
/// raster where there is none.
pub proof fn law_mask_tells_pixels_of_window(
    raster: spec_fn(int, int) -> Pixel,
    profile: RasterProfile,
    source: ResolvedValiditySource,
    missing: Option<MissingValue>,
    window: Option<WriteWindow>,
    tile: u32,
    tiles: Seq<TileSamples>,
    mask: ValidityMask,
    row: int,
    col: int,
)
    requires
        is_validity_mask(mask, profile, source, missing, window, tile as nat, tiles),
        source != ResolvedValiditySource::Full,
        tile > 0,
        mask.width <= u32::MAX,
        mask.height <= u32::MAX,
        tiles_show(raster, window, mask.width as nat, mask.height as nat, tile as nat, tiles),
        0 <= row < mask.height,
        0 <= col < mask.width,
    ensures
        ({
            let byte = mask.bytes@[row * mask.width + col];
            let valid = pixel_valid(
                match window {
                    Some(win) => raster(win.row_off + row, win.col_off + col),
                    None => raster(row, col),
                },
                missing,
            );
            byte == 1 && valid || byte == 0 && !valid
        }),
        window matches Some(win) ==> mask.width == win.width && mask.height == win.height,
        window is None ==> mask.width == profile.width as usize && mask.height
            == profile.height as usize,
{
    lemma_tile_shows_pixel(
        raster,
        window,
        mask.width as nat,
        mask.height as nat,
        tile as nat,
        tiles,
        row,
        col,
    );
    assert(mask.has(row, col));
    assert(mask.at(row, col) == mask.bytes@[row * mask.width + col]);
}

/// What is read for a tile is what tells valid pixels: the mask, the alpha band, the colors,
/// or the samples among which missing data are looked for. Samples of more than 8 bits are
/// read as wide ones.
pub proof fn law_reads_are_those_of_the_source(
    has_masks: bool,
    profile: RasterProfile,
    source: ResolvedValiditySource,
    has_nodata: bool,
)
    ensures
        ({
            let read = validity_read(has_masks, profile, source, has_nodata);
            let bits = profile.sample.bits_per_sample;
            &&& source is DatasetMask ==> (if has_masks {
                read matches Ok(ValidityRead::DatasetMask)
            } else {
                read matches Err(ValidityReadError::MissingMask)
            })
            &&& source is AssociatedAlpha ==> (match alpha_band(profile) {
                Some(band) => read matches Ok(ValidityRead::Alpha { band: index, wide }) && wide
                    == (bits > 8) && (1 <= band <= usize::MAX ==> index + 1 == band),
                None => read matches Err(ValidityReadError::MissingAlphaBand),
            })
            &&& source is BlackRgb && bits <= 8 ==> (read matches Ok(
                ValidityRead::Colors { wide: false },
            ))
            &&& source is BlackRgb && 8 < bits <= 16 ==> (read matches Ok(
                ValidityRead::Colors { wide: true },
            ))
            &&& source is BlackRgb && bits > 16 ==> (read matches Ok(ValidityRead::Nothing))
            &&& source is Nodata && has_nodata ==> read is Ok
            &&& source is Nodata && !has_nodata ==> (read matches Err(
                ValidityReadError::MissingNodata,
            ))
            &&& source is Full ==> (read matches Ok(ValidityRead::Nothing))
        }),
{
}

/// Missing data are looked for among samples of the raster's own size and kind.
pub proof fn law_nodata_reads_have_the_samples_kind(profile: RasterProfile, kind: NodataKind)
    requires
        validity_read(false, profile, ResolvedValiditySource::Nodata, true) == Ok::<
            ValidityRead,
            ValidityReadError,
        >(ValidityRead::Samples(kind)),
    ensures
        ({
            let bits = profile.sample.bits_per_sample;
            &&& kind is U8 || kind is I8 <==> bits == 8
            &&& kind is U16 || kind is I16 <==> bits == 16
            &&& kind is U32 || kind is I32 || kind is F32 <==> bits == 32
            &&& kind is F64 <==> bits == 64
            &&& kind is U8 || kind is U16 || kind is U32 <==> profile.sample.sample_format is Uint
            &&& kind is I8 || kind is I16 || kind is I32 <==> profile.sample.sample_format is Int
            &&& kind is F32 || kind is F64 <==> profile.sample.sample_format is Float
        }),
{
}

/// A sample is missing exactly if it equals the value for missing data of its own kind, and,
/// where the kinds differ and both numbers fit, if the numbers are the same.
pub proof fn law_missing_samples_equal_the_value(a: u8, b: u16, c: u32, d: i8, e: i16, f: i32)
    ensures
        forall|n: u8| #[trigger] a.is_missing(NodataValue::U8(n)) <==> a == n,
        forall|n: u16| #[trigger] b.is_missing(NodataValue::U16(n)) <==> b == n,
        forall|n: u32| #[trigger] c.is_missing(NodataValue::U32(n)) <==> c == n,
        forall|n: i8| #[trigger] d.is_missing(NodataValue::I8(n)) <==> d == n,
        forall|n: i16| #[trigger] e.is_missing(NodataValue::I16(n)) <==> e == n,
        forall|n: i32| #[trigger] f.is_missing(NodataValue::I32(n)) <==> f == n,
        a <= 127 ==> forall|n: i8| #[trigger] a.is_missing(NodataValue::I8(n)) <==> a as int
            == n as int,
        b <= 32767 ==> forall|n: i8| #[trigger] b.is_missing(NodataValue::I8(n)) <==> b as int
            == n as int,
        b <= 32767 ==> forall|n: i16| #[trigger] b.is_missing(NodataValue::I16(n)) <==> b as int
            == n as int,
        0 <= e <= 255 ==> forall|n: u8| #[trigger] e.is_missing(NodataValue::U8(n)) <==> e as int
            == n as int,
        0 <= e ==> forall|n: u16| #[trigger] e.is_missing(NodataValue::U16(n)) <==> e as int
            == n as int,
        0 <= e ==> forall|n: u32| #[trigger] e.is_missing(NodataValue::U32(n)) <==> e as int
            == n as int,
        forall|n: i16| #[trigger] d.is_missing(NodataValue::I16(n)) <==> d as int == n as int,
        forall|n: u16| #[trigger] a.is_missing(NodataValue::U16(n)) <==> a as int == n as int,
        forall|n: i16| #[trigger] a.is_missing(NodataValue::I16(n)) <==> a as int == n as int,
        forall|n: u8| #[trigger] b.is_missing(NodataValue::U8(n)) <==> b as int == n as int,
        forall|n: i32| #[trigger] e.is_missing(NodataValue::I32(n)) <==> e as int == n as int,
        forall|n: i8| #[trigger] e.is_missing(NodataValue::I8(n)) <==> e as int == n as int,
{
}

/// Valid pixels are those whose byte is not zero.
pub proof fn law_bytes_are_zero_where_invalid(valid: bool)
    ensures
        validity_byte(valid) != 0 <==> valid,
{
}

/// Valid pixels are counted one by one, in whatever parts they are counted.
pub proof fn law_valid_pixels_are_counted_once(first: Seq<u8>, second: Seq<u8>)
    ensures
        count_valid(first + second) == count_valid(first) + count_valid(second),
        first.len() == 1 ==> count_valid(first) == (if first[0] != 0 {
            1int
        } else {
            0int
        }),
        count_valid(first) <= first.len(),
    decreases second.len(),
{
    lemma_count_valid(first);
    if first.len() == 1 {
        assert(first.drop_last() =~= Seq::<u8>::empty());
        assert(count_valid(first.drop_last()) == 0);
    }
    if second.len() == 0 {
        assert(first + second =~= first);
    } else {
        law_valid_pixels_are_counted_once(first, second.drop_last());
        assert((first + second).drop_last() =~= first + second.drop_last());
        assert((first + second).last() == second.last());
    }
}

} // verus!
