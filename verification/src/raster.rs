//! Decoded pixels: one band as a grid of samples, or several bands interleaved pixel
//! by pixel.
use crate::arith::{lemma_grid_index, lemma_mul_bound};
use vstd::prelude::*;

verus! {

/// The sample in column `col` of row `row` of samples that are stored row by row.
pub open spec fn sample2<T>(samples: Seq<T>, cols: int, row: int, col: int) -> T {
    samples[row * cols + col]
}

/// The sample of band `band` in column `col` of row `row` of samples that are stored
/// row by row, pixel by pixel, band by band.
pub open spec fn sample3<T>(
    samples: Seq<T>,
    cols: int,
    bands: int,
    row: int,
    col: int,
    band: int,
) -> T {
    samples[(row * cols + col) * bands + band]
}

/// Samples of one band, row by row.
#[derive(Debug)]
pub struct Grid2<T> {
    pub rows: usize,
    pub cols: usize,
    pub samples: Vec<T>,
}

/// Samples of several bands: row by row, pixel by pixel, band by band.
#[derive(Debug)]
pub struct Grid3<T> {
    pub rows: usize,
    pub cols: usize,
    pub bands: usize,
    pub samples: Vec<T>,
}

impl<T> Grid2<T> {
    /// There is one sample for each cell.
    pub open spec fn well_formed(&self) -> bool {
        self.samples@.len() == self.rows * self.cols
    }

    /// The sample in column `col` of row `row`.
    pub open spec fn at(&self, row: int, col: int) -> T {
        sample2(self.samples@, self.cols as int, row, col)
    }

    /// Whether the cell exists.
    pub open spec fn has(&self, row: int, col: int) -> bool {
        0 <= row < self.rows && 0 <= col < self.cols
    }
}

impl<T> Grid3<T> {
    /// There is one sample for each band of each pixel.
    pub open spec fn well_formed(&self) -> bool {
        self.samples@.len() == self.rows * self.cols * self.bands
    }

    /// The sample of band `band` in column `col` of row `row`.
    pub open spec fn at(&self, row: int, col: int, band: int) -> T {
        sample3(self.samples@, self.cols as int, self.bands as int, row, col, band)
    }

    /// Whether the sample exists.
    pub open spec fn has(&self, row: int, col: int, band: int) -> bool {
        0 <= row < self.rows && 0 <= col < self.cols && 0 <= band < self.bands
    }
}

/// A cell of a grid has its sample within the sample list.
pub proof fn lemma_cell2(rows: int, cols: int, row: int, col: int)
    requires
        0 <= row < rows,
        0 <= col < cols,
    ensures
        0 <= row * cols + col < rows * cols,
        (row * cols + col) / cols == row,
        (row * cols + col) % cols == col,
{
    lemma_grid_index(row, col, cols, rows);
}

/// A band of a pixel has its sample within the sample list.
pub proof fn lemma_cell3(rows: int, cols: int, bands: int, row: int, col: int, band: int)
    requires
        0 <= row < rows,
        0 <= col < cols,
        0 <= band < bands,
    ensures
        0 <= row * cols + col < rows * cols,
        0 <= (row * cols + col) * bands + band < rows * cols * bands,
        ((row * cols + col) * bands + band) / bands == row * cols + col,
        ((row * cols + col) * bands + band) % bands == band,
        (row * cols + col) / cols == row,
        (row * cols + col) % cols == col,
{
    lemma_grid_index(row, col, cols, rows);
    lemma_grid_index(row * cols + col, band, bands, rows * cols);
}

/// The value that `f` gives each cell, row by row.
pub fn build2<T, F: Fn(usize, usize) -> T>(rows: usize, cols: usize, f: F) -> (samples: Vec<T>)
    requires
        rows * cols <= usize::MAX,
        forall|r: usize, c: usize| r < rows && c < cols ==> #[trigger] call_requires(f, (r, c)),
    ensures
        samples@.len() == rows * cols,
        forall|r: int, c: int|
            0 <= r < rows && 0 <= c < cols ==> call_ensures(
                f,
                (r as usize, c as usize),
                #[trigger] sample2(samples@, cols as int, r, c),
            ),
{
    let mut samples: Vec<T> = Vec::new();
    let mut row: usize = 0;
    assert(0 * cols == 0) by (nonlinear_arith);
    while row < rows
        invariant
            row <= rows,
            rows * cols <= usize::MAX,
            samples@.len() == row * cols,
            forall|r: usize, c: usize|
                r < rows && c < cols ==> #[trigger] call_requires(f, (r, c)),
            forall|i: int|
                0 <= i < samples@.len() ==> call_ensures(
                    f,
                    ((i / cols as int) as usize, (i % cols as int) as usize),
                    #[trigger] samples@[i],
                ),
        decreases rows - row,
    {
        let mut col: usize = 0;
        while col < cols
            invariant
                row < rows,
                col <= cols,
                rows * cols <= usize::MAX,
                samples@.len() == row * cols + col,
                forall|r: usize, c: usize|
                    r < rows && c < cols ==> #[trigger] call_requires(f, (r, c)),
                forall|i: int|
                    0 <= i < samples@.len() ==> call_ensures(
                        f,
                        ((i / cols as int) as usize, (i % cols as int) as usize),
                        #[trigger] samples@[i],
                    ),
            decreases cols - col,
        {
            proof {
                lemma_cell2(rows as int, cols as int, row as int, col as int);
            }
            samples.push(f(row, col));
            col = col + 1;
        }
        proof {
            assert((row + 1) * cols == row * cols + cols) by (nonlinear_arith);
        }
        row = row + 1;
    }
    proof {
        assert forall|r: int, c: int| 0 <= r < rows && 0 <= c < cols implies call_ensures(
            f,
            (r as usize, c as usize),
            #[trigger] sample2(samples@, cols as int, r, c),
        ) by {
            lemma_cell2(rows as int, cols as int, r, c);
        }
    }
    samples
}

/// The value that `f` gives each band of each pixel, in the order of [`Grid3`].
pub fn build3<T, F: Fn(usize, usize, usize) -> T>(
    rows: usize,
    cols: usize,
    bands: usize,
    f: F,
) -> (samples: Vec<T>)
    requires
        rows * cols * bands <= usize::MAX,
        forall|r: usize, c: usize, b: usize|
            r < rows && c < cols && b < bands ==> #[trigger] call_requires(f, (r, c, b)),
    ensures
        samples@.len() == rows * cols * bands,
        forall|r: int, c: int, b: int|
            0 <= r < rows && 0 <= c < cols && 0 <= b < bands ==> call_ensures(
                f,
                (r as usize, c as usize, b as usize),
                #[trigger] sample3(samples@, cols as int, bands as int, r, c, b),
            ),
{
    let mut samples: Vec<T> = Vec::new();
    let mut row: usize = 0;
    assert(0 * cols * bands == 0) by (nonlinear_arith);
    while row < rows
        invariant
            row <= rows,
            samples@.len() == row * cols * bands,
            forall|r: usize, c: usize, b: usize|
                r < rows && c < cols && b < bands ==> #[trigger] call_requires(f, (r, c, b)),
            forall|i: int|
                0 <= i < samples@.len() ==> call_ensures(
                    f,
                    (
                        (i / bands as int / cols as int) as usize,
                        (i / bands as int % cols as int) as usize,
                        (i % bands as int) as usize,
                    ),
                    #[trigger] samples@[i],
                ),
        decreases rows - row,
    {
        let mut col: usize = 0;
        assert(row * cols * bands == (row * cols + 0) * bands);
        while col < cols
            invariant
                row < rows,
                col <= cols,
                samples@.len() == (row * cols + col) * bands,
                forall|r: usize, c: usize, b: usize|
                    r < rows && c < cols && b < bands ==> #[trigger] call_requires(f, (r, c, b)),
                forall|i: int|
                    0 <= i < samples@.len() ==> call_ensures(
                        f,
                        (
                            (i / bands as int / cols as int) as usize,
                            (i / bands as int % cols as int) as usize,
                            (i % bands as int) as usize,
                        ),
                        #[trigger] samples@[i],
                    ),
            decreases cols - col,
        {
            let mut band: usize = 0;
            while band < bands
                invariant
                    row < rows,
                    col < cols,
                    band <= bands,
                    samples@.len() == (row * cols + col) * bands + band,
                    forall|r: usize, c: usize, b: usize|
                        r < rows && c < cols && b < bands ==> #[trigger] call_requires(
                            f,
                            (r, c, b),
                        ),
                    forall|i: int|
                        0 <= i < samples@.len() ==> call_ensures(
                            f,
                            (
                                (i / bands as int / cols as int) as usize,
                                (i / bands as int % cols as int) as usize,
                                (i % bands as int) as usize,
                            ),
                            #[trigger] samples@[i],
                        ),
                decreases bands - band,
            {
                proof {
                    lemma_cell3(
                        rows as int,
                        cols as int,
                        bands as int,
                        row as int,
                        col as int,
                        band as int,
                    );
                }
                samples.push(f(row, col, band));
                band = band + 1;
            }
            proof {
                assert((row * cols + (col + 1)) * bands == (row * cols + col) * bands + bands)
                    by (nonlinear_arith);
            }
            col = col + 1;
        }
        proof {
            assert((row + 1) * cols * bands == (row * cols + cols) * bands) by (nonlinear_arith);
        }
        row = row + 1;
    }
    proof {
        assert forall|r: int, c: int, b: int|
            0 <= r < rows && 0 <= c < cols && 0 <= b < bands implies call_ensures(
            f,
            (r as usize, c as usize, b as usize),
            #[trigger] sample3(samples@, cols as int, bands as int, r, c, b),
        ) by {
            lemma_cell3(rows as int, cols as int, bands as int, r, c, b);
        }
    }
    samples
}

impl<T: Copy> Grid2<T> {
    /// The sample in column `col` of row `row`.
    pub fn get(&self, row: usize, col: usize) -> (value: T)
        requires
            self.well_formed(),
            row < self.rows,
            col < self.cols,
        ensures
            value == self.at(row as int, col as int),
    {
        let length: usize = self.samples.len();
        proof {
            lemma_cell2(self.rows as int, self.cols as int, row as int, col as int);
            lemma_mul_bound(row as int, self.cols as int, self.rows as int, self.cols as int);
        }
        self.samples[row * self.cols + col]
    }

    /// The part of the grid that starts in column `col` of row `row`.
    pub fn window(&self, row: usize, col: usize, rows: usize, cols: usize) -> (part: Grid2<T>)
        requires
            self.well_formed(),
            row + rows <= self.rows,
            col + cols <= self.cols,
        ensures
            part.well_formed(),
            part.rows == rows,
            part.cols == cols,
            forall|r: int, c: int|
                part.has(r, c) ==> #[trigger] part.at(r, c) == self.at(row + r, col + c),
    {
        let length: usize = self.samples.len();
        proof {
            lemma_mul_bound(rows as int, cols as int, self.rows as int, self.cols as int);
        }
        let pick = |r: usize, c: usize| -> (value: T)
            requires
                r < rows,
                c < cols,
            ensures
                value == self.at(row + r, col + c),
            { self.get(row + r, col + c) };
        let samples: Vec<T> = build2(rows, cols, pick);
        Grid2 { rows, cols, samples }
    }
}

impl<T: Copy> Grid3<T> {
    /// The sample of band `band` in column `col` of row `row`.
    pub fn get(&self, row: usize, col: usize, band: usize) -> (value: T)
        requires
            self.well_formed(),
            row < self.rows,
            col < self.cols,
            band < self.bands,
        ensures
            value == self.at(row as int, col as int, band as int),
    {
        let length: usize = self.samples.len();
        proof {
            let pixel = row * self.cols + col;
            lemma_cell3(
                self.rows as int,
                self.cols as int,
                self.bands as int,
                row as int,
                col as int,
                band as int,
            );
            assert(pixel <= pixel * self.bands) by (nonlinear_arith)
                requires
                    0 <= pixel,
                    1 <= self.bands,
            ;
        }
        self.samples[(row * self.cols + col) * self.bands + band]
    }

    /// The part of the grid that starts in column `col` of row `row`, with all bands.
    pub fn window(&self, row: usize, col: usize, rows: usize, cols: usize) -> (part: Grid3<T>)
        requires
            self.well_formed(),
            row + rows <= self.rows,
            col + cols <= self.cols,
        ensures
            part.well_formed(),
            part.rows == rows,
            part.cols == cols,
            part.bands == self.bands,
            forall|r: int, c: int, b: int|
                part.has(r, c, b) ==> #[trigger] part.at(r, c, b) == self.at(row + r, col + c, b),
    {
        let length: usize = self.samples.len();
        let bands: usize = self.bands;
        proof {
            lemma_mul_bound(rows as int, cols as int, self.rows as int, self.cols as int);
            lemma_mul_bound(
                rows * cols,
                bands as int,
                self.rows * self.cols,
                bands as int,
            );
        }
        let pick = |r: usize, c: usize, b: usize| -> (value: T)
            requires
                r < rows,
                c < cols,
                b < bands,
            ensures
                value == self.at(row + r, col + c, b as int),
            { self.get(row + r, col + c, b) };
        let samples: Vec<T> = build3(rows, cols, bands, pick);
        Grid3 { rows, cols, bands, samples }
    }

    /// One band.
    pub fn band(&self, band: usize) -> (plane: Grid2<T>)
        requires
            self.well_formed(),
            band < self.bands,
        ensures
            plane.well_formed(),
            plane.rows == self.rows,
            plane.cols == self.cols,
            forall|r: int, c: int|
                plane.has(r, c) ==> #[trigger] plane.at(r, c) == self.at(r, c, band as int),
    {
        let length: usize = self.samples.len();
        let rows: usize = self.rows;
        let cols: usize = self.cols;
        proof {
            let cells = rows * cols;
            assert(0 <= cells) by (nonlinear_arith)
                requires
                    cells == rows * cols,
            ;
            assert(cells <= cells * self.bands) by (nonlinear_arith)
                requires
                    0 <= cells,
                    1 <= self.bands,
            ;
        }
        let pick = |r: usize, c: usize| -> (value: T)
            requires
                r < rows,
                c < cols,
            ensures
                value == self.at(r as int, c as int, band as int),
            { self.get(r, c, band) };
        let samples: Vec<T> = build2(rows, cols, pick);
        Grid2 { rows, cols, samples }
    }
}

impl<T> Grid2<T> {
    /// Puts a sample in column `col` of row `row`.
    pub fn set(&mut self, row: usize, col: usize, value: T)
        requires
            old(self).well_formed(),
            row < old(self).rows,
            col < old(self).cols,
        ensures
            final(self).well_formed(),
            final(self).rows == old(self).rows,
            final(self).cols == old(self).cols,
            forall|r: int, c: int|
                final(self).has(r, c) ==> #[trigger] final(self).at(r, c) == (if r == row && c
                    == col {
                    value
                } else {
                    old(self).at(r, c)
                }),
    {
        let length: usize = self.samples.len();
        let ghost rows = self.rows as int;
        let ghost cols = self.cols as int;
        proof {
            lemma_cell2(rows, cols, row as int, col as int);
            lemma_mul_bound(row as int, cols, rows, cols);
        }
        let index: usize = row * self.cols + col;
        self.samples.set(index, value);
        proof {
            assert forall|r: int, c: int| 0 <= r < rows && 0 <= c < cols implies #[trigger] self.at(
                r,
                c,
            ) == (if r == row && c == col {
                value
            } else {
                old(self).at(r, c)
            }) by {
                lemma_cell2(rows, cols, r, c);
            }
        }
    }
}

impl<T> Grid3<T> {
    /// Puts a sample of band `band` in column `col` of row `row`.
    pub fn set(&mut self, row: usize, col: usize, band: usize, value: T)
        requires
            old(self).well_formed(),
            row < old(self).rows,
            col < old(self).cols,
            band < old(self).bands,
        ensures
            final(self).well_formed(),
            final(self).rows == old(self).rows,
            final(self).cols == old(self).cols,
            final(self).bands == old(self).bands,
            forall|r: int, c: int, b: int|
                final(self).has(r, c, b) ==> #[trigger] final(self).at(r, c, b) == (if r == row && c
                    == col && b == band {
                    value
                } else {
                    old(self).at(r, c, b)
                }),
    {
        let length: usize = self.samples.len();
        let ghost rows = self.rows as int;
        let ghost cols = self.cols as int;
        let ghost bands = self.bands as int;
        proof {
            let pixel = row * self.cols + col;
            lemma_cell3(rows, cols, bands, row as int, col as int, band as int);
            assert(pixel <= pixel * self.bands) by (nonlinear_arith)
                requires
                    0 <= pixel,
                    1 <= self.bands,
            ;
        }
        let index: usize = (row * self.cols + col) * self.bands + band;
        self.samples.set(index, value);
        proof {
            assert forall|r: int, c: int, b: int|
                0 <= r < rows && 0 <= c < cols && 0 <= b < bands implies #[trigger] self.at(
                r,
                c,
                b,
            ) == (if r == row && c == col && b == band {
                value
            } else {
                old(self).at(r, c, b)
            }) by {
                lemma_cell3(rows, cols, bands, r, c, b);
            }
        }
    }
}

/// Samples are stored row by row: columns follow each other, and behind the last column of a
/// row comes the first one of the next.
pub proof fn law_samples_are_stored_row_by_row<T>(samples: Seq<T>, cols: int, row: int, col: int)
    ensures
        sample2(samples, cols, 0, col) == samples[col],
        sample2(samples, cols, row, cols + col) == sample2(samples, cols, row + 1, col),
{
    assert(row * cols + (cols + col) == (row + 1) * cols + col) by (nonlinear_arith);
}

/// The samples of a pixel stand together, band by band: behind the last band of a pixel comes
/// the first one of the next column.
pub proof fn law_samples_of_a_pixel_stand_together<T>(
    samples: Seq<T>,
    cols: int,
    bands: int,
    row: int,
    col: int,
    band: int,
)
    ensures
        sample3(samples, cols, bands, 0, 0, band) == samples[band],
        sample3(samples, cols, bands, row, col, bands + band) == sample3(
            samples,
            cols,
            bands,
            row,
            col + 1,
            band,
        ),
        sample3(samples, cols, bands, row, cols + col, band) == sample3(
            samples,
            cols,
            bands,
            row + 1,
            col,
            band,
        ),
        sample3(samples, cols, 1, row, col, 0) == sample2(samples, cols, row, col),
{
    assert((0 * cols + 0) * bands + band == band) by (nonlinear_arith);
    assert((row * cols + col) * bands + (bands + band) == (row * cols + (col + 1)) * bands + band)
        by (nonlinear_arith);
    assert(row * cols + (cols + col) == (row + 1) * cols + col) by (nonlinear_arith);
}

} // verus!
