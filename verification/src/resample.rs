//! Reducing decoded pixels to a lower resolution.
use crate::arith::{
    lemma_mul_bound, lemma_same_area, max_of, min_of, sum_area, sum_line,
};
use crate::cog::options::ResamplingChoice;
use crate::raster::{build2, build3, Grid2, Grid3};
use vstd::arithmetic::div_mod::lemma_fundamental_div_mod;
use vstd::prelude::*;
use vstd::std_specs::cmp::PartialEqSpec;

verus! {

/// Whether a sample is the one that stands for missing data.
pub fn is_nodata<T: PartialEq + Copy>(value: T, nodata: Option<T>) -> (missing: bool)
    ensures
        T::obeys_eq_spec() ==> missing == missing_sample(value, nodata),
{
    match nodata {
        Some(nd) => value == nd,
        None => false,
    }
}

/// Whether a sample equals the one that stands for missing data.
pub open spec fn missing_sample<T: PartialEq>(value: T, nodata: Option<T>) -> bool {
    match nodata {
        Some(nd) => value.eq_spec(&nd),
        None => false,
    }
}

/// The source line that a reduced line takes its samples from.
pub open spec fn nearest_line(line: int, scale: int, lines: int) -> int {
    min_of(line * scale, max_of(lines - 1, 0))
}

/// Takes the first sample of every `scale` by `scale` block, the last one of the source
/// where the block lies behind it.
pub fn nearest_downsample_2d<T: Copy + PartialEq>(
    src: &Grid2<T>,
    out_rows: usize,
    out_cols: usize,
    scale: usize,
    nodata: Option<T>,
) -> (out: Grid2<T>)
    requires
        src.well_formed(),
        out_rows * out_cols <= usize::MAX,
        out_rows > 0 && out_cols > 0 ==> src.rows > 0 && src.cols > 0,
        out_rows * scale <= usize::MAX,
        out_cols * scale <= usize::MAX,
    ensures
        out.well_formed(),
        out.rows == out_rows,
        out.cols == out_cols,
        T::obeys_eq_spec() ==> forall|r: int, c: int|
            out.has(r, c) ==> {
                let value = src.at(
                    nearest_line(r, scale as int, src.rows as int),
                    nearest_line(c, scale as int, src.cols as int),
                );
                #[trigger] out.at(r, c) == (if missing_sample(value, nodata) {
                    nodata->0
                } else {
                    value
                })
            },
{
    let pick = |r: usize, c: usize| -> (picked: T)
        requires
            r < out_rows,
            c < out_cols,
        ensures
            T::obeys_eq_spec() ==> ({
                let value = src.at(
                    nearest_line(r as int, scale as int, src.rows as int),
                    nearest_line(c as int, scale as int, src.cols as int),
                );
                picked == (if missing_sample(value, nodata) {
                    nodata->0
                } else {
                    value
                })
            }),
        {
            proof {
                lemma_mul_bound(r as int, scale as int, out_rows as int, scale as int);
                lemma_mul_bound(c as int, scale as int, out_cols as int, scale as int);
            }
            let wanted_row: usize = r * scale;
            let wanted_col: usize = c * scale;
            let src_row: usize = if wanted_row < src.rows {
                wanted_row
            } else {
                src.rows - 1
            };
            let src_col: usize = if wanted_col < src.cols {
                wanted_col
            } else {
                src.cols - 1
            };
            let value: T = src.get(src_row, src_col);
            if is_nodata(value, nodata) {
                match nodata {
                    Some(nd) => nd,
                    None => value,
                }
            } else {
                value
            }
        };
    let samples: Vec<T> = build2(out_rows, out_cols, pick);
    Grid2 { rows: out_rows, cols: out_cols, samples }
}

/// A sample type whose values are averaged as integers.
pub trait MeanSample: Copy + PartialEq {
    /// The value of a sample.
    spec fn number(self) -> int;

    /// The sample with this value.
    spec fn of_number(number: int) -> Self;

    /// The least value.
    spec fn least() -> int;

    /// The greatest value.
    spec fn greatest() -> int;

    /// Samples are equal exactly if their values are, and values lie within the bounds.
    proof fn numbers_are_faithful(value: Self, other: Self)
        ensures
            Self::obeys_eq_spec(),
            value.eq_spec(&other) == (value == other),
            (value.number() == other.number()) == (value == other),
            Self::least() <= value.number() <= Self::greatest(),
            -65536 <= Self::least() <= 0 <= Self::greatest() <= 65536,
    ;

    /// Values within the bounds are those of samples.
    proof fn numbers_are_covered(number: int)
        requires
            Self::least() <= number <= Self::greatest(),
        ensures
            Self::of_number(number).number() == number,
    ;

    fn to_number(self) -> (number: i128)
        ensures
            number == self.number(),
    ;

    fn from_number(number: i128) -> (sample: Self)
        requires
            Self::least() <= number <= Self::greatest(),
        ensures
            sample == Self::of_number(number as int),
    ;
}

impl MeanSample for u8 {
    open spec fn number(self) -> int {
        self as int
    }

    open spec fn of_number(number: int) -> u8 {
        number as u8
    }

    open spec fn least() -> int {
        0
    }

    open spec fn greatest() -> int {
        255
    }

    proof fn numbers_are_faithful(value: u8, other: u8) {
    }

    proof fn numbers_are_covered(number: int) {
    }

    fn to_number(self) -> (number: i128) {
        self as i128
    }

    fn from_number(number: i128) -> (sample: u8) {
        number as u8
    }
}

impl MeanSample for i8 {
    open spec fn number(self) -> int {
        self as int
    }

    open spec fn of_number(number: int) -> i8 {
        number as i8
    }

    open spec fn least() -> int {
        -128
    }

    open spec fn greatest() -> int {
        127
    }

    proof fn numbers_are_faithful(value: i8, other: i8) {
    }

    proof fn numbers_are_covered(number: int) {
    }

    fn to_number(self) -> (number: i128) {
        self as i128
    }

    fn from_number(number: i128) -> (sample: i8) {
        number as i8
    }
}

impl MeanSample for u16 {
    open spec fn number(self) -> int {
        self as int
    }

    open spec fn of_number(number: int) -> u16 {
        number as u16
    }

    open spec fn least() -> int {
        0
    }

    open spec fn greatest() -> int {
        65535
    }

    proof fn numbers_are_faithful(value: u16, other: u16) {
    }

    proof fn numbers_are_covered(number: int) {
    }

    fn to_number(self) -> (number: i128) {
        self as i128
    }

    fn from_number(number: i128) -> (sample: u16) {
        number as u16
    }
}

impl MeanSample for i16 {
    open spec fn number(self) -> int {
        self as int
    }

    open spec fn of_number(number: int) -> i16 {
        number as i16
    }

    open spec fn least() -> int {
        -32768
    }

    open spec fn greatest() -> int {
        32767
    }

    proof fn numbers_are_faithful(value: i16, other: i16) {
    }

    proof fn numbers_are_covered(number: int) {
    }

    fn to_number(self) -> (number: i128) {
        self as i128
    }

    fn from_number(number: i128) -> (sample: i16) {
        number as i16
    }
}

/// Sum and count of the samples of a row, from one column to before another, without
/// those that stand for missing data.
pub open spec fn run_total<T: MeanSample>(
    src: Grid2<T>,
    row: int,
    from: int,
    to: int,
    nodata: Option<T>,
) -> (int, int)
    decreases to - from,
{
    if to <= from {
        (0, 0)
    } else {
        let front = run_total(src, row, from, to - 1, nodata);
        let value = src.at(row, to - 1);
        if nodata == Some(value) {
            front
        } else {
            (front.0 + value.number(), front.1 + 1)
        }
    }
}

/// Sum and count of the samples of a rectangle, without those that stand for missing
/// data.
pub open spec fn block_total<T: MeanSample>(
    src: Grid2<T>,
    row_from: int,
    row_to: int,
    col_from: int,
    col_to: int,
    nodata: Option<T>,
) -> (int, int)
    decreases row_to - row_from,
{
    if row_to <= row_from {
        (0, 0)
    } else {
        let front = block_total(src, row_from, row_to - 1, col_from, col_to, nodata);
        let run = run_total(src, row_to - 1, col_from, col_to, nodata);
        (front.0 + run.0, front.1 + run.1)
    }
}

/// The quotient, rounded to the nearest integer; halves are rounded away from zero.
pub open spec fn rounded_mean(sum: int, count: int) -> int {
    if sum >= 0 {
        (2 * sum + count) / (2 * count)
    } else {
        -((2 * (-sum) + count) / (2 * count))
    }
}

/// The mean of a block: that of its samples that are not missing, or, where all are
/// missing or the block lies behind the source, the sample for missing data, which is
/// zero by default.
pub open spec fn block_mean<T: MeanSample>(total: (int, int), nodata: Option<T>) -> T {
    if total.1 == 0 {
        match nodata {
            Some(nd) => nd,
            None => T::of_number(0),
        }
    } else {
        T::of_number(rounded_mean(total.0, total.1))
    }
}

/// The block that a reduced cell stands for: `scale` by `scale` cells, cut at the
/// edge of the source.
pub open spec fn cell_total<T: MeanSample>(
    src: Grid2<T>,
    row: int,
    col: int,
    scale: int,
    nodata: Option<T>,
) -> (int, int) {
    block_total(
        src,
        row * scale,
        min_of(row * scale + scale, src.rows as int),
        col * scale,
        min_of(col * scale + scale, src.cols as int),
        nodata,
    )
}

proof fn lemma_run_total_bounds<T: MeanSample>(
    src: Grid2<T>,
    row: int,
    from: int,
    to: int,
    nodata: Option<T>,
    low: int,
    high: int,
)
    requires
        from <= to,
        forall|c: int|
            from <= c < to ==> nodata == Some(src.at(row, c)) || low <= (#[trigger] src.at(
                row,
                c,
            )).number() <= high,
    ensures
        ({
            let total = run_total(src, row, from, to, nodata);
            &&& 0 <= total.1 <= to - from
            &&& low * total.1 <= total.0 <= high * total.1
        }),
    decreases to - from,
{
    if from < to {
        lemma_run_total_bounds(src, row, from, to - 1, nodata, low, high);
        let front = run_total(src, row, from, to - 1, nodata);
        let value = src.at(row, to - 1);
        assert(low * (front.1 + 1) == low * front.1 + low) by (nonlinear_arith);
        assert(high * (front.1 + 1) == high * front.1 + high) by (nonlinear_arith);
    } else {
        assert(low * 0 == 0 && high * 0 == 0);
    }
}

proof fn lemma_block_total_bounds<T: MeanSample>(
    src: Grid2<T>,
    row_from: int,
    row_to: int,
    col_from: int,
    col_to: int,
    nodata: Option<T>,
    low: int,
    high: int,
)
    requires
        row_from <= row_to,
        col_from <= col_to,
        forall|r: int, c: int|
            row_from <= r < row_to && col_from <= c < col_to ==> nodata == Some(src.at(r, c)) || low
                <= (#[trigger] src.at(r, c)).number() <= high,
    ensures
        ({
            let total = block_total(src, row_from, row_to, col_from, col_to, nodata);
            &&& 0 <= total.1 <= (row_to - row_from) * (col_to - col_from)
            &&& low * total.1 <= total.0 <= high * total.1
        }),
    decreases row_to - row_from,
{
    if row_from < row_to {
        lemma_block_total_bounds(
            src,
            row_from,
            row_to - 1,
            col_from,
            col_to,
            nodata,
            low,
            high,
        );
        lemma_run_total_bounds(src, row_to - 1, col_from, col_to, nodata, low, high);
        let front = block_total(src, row_from, row_to - 1, col_from, col_to, nodata);
        let run = run_total(src, row_to - 1, col_from, col_to, nodata);
        assert(low * (front.1 + run.1) == low * front.1 + low * run.1) by (nonlinear_arith);
        assert(high * (front.1 + run.1) == high * front.1 + high * run.1) by (nonlinear_arith);
        let height = row_to - row_from;
        let width = col_to - col_from;
        assert(height * width == (height - 1) * width + width) by (nonlinear_arith);
    } else {
        assert(low * 0 == 0 && high * 0 == 0);
        assert((row_to - row_from) * (col_to - col_from) == 0) by (nonlinear_arith)
            requires
                row_to == row_from,
        ;
    }
}

/// A rounded mean lies between bounds that hold for the mean.
proof fn lemma_rounded_mean_bounds(sum: int, count: int, low: int, high: int)
    requires
        count > 0,
        low * count <= sum <= high * count,
    ensures
        low <= rounded_mean(sum, count) <= high,
{
    let twice = 2 * count;
    if sum >= 0 {
        let q = (2 * sum + count) / twice;
        lemma_fundamental_div_mod(2 * sum + count, twice);
        assert(low <= q) by (nonlinear_arith)
            requires
                count > 0,
                twice == 2 * count,
                low * count <= sum,
                2 * sum + count < twice * q + twice,
        ;
        assert(q <= high) by (nonlinear_arith)
            requires
                count > 0,
                twice == 2 * count,
                sum <= high * count,
                twice * q <= 2 * sum + count,
        ;
    } else {
        let q = (2 * (-sum) + count) / twice;
        lemma_fundamental_div_mod(2 * (-sum) + count, twice);
        assert(low <= -q) by (nonlinear_arith)
            requires
                count > 0,
                twice == 2 * count,
                low * count <= sum,
                twice * q <= 2 * (-sum) + count,
        ;
        assert(-q <= high) by (nonlinear_arith)
            requires
                count > 0,
                twice == 2 * count,
                sum <= high * count,
                2 * (-sum) + count < twice * q + twice,
        ;
    }
}

/// A reduced sample lies between the least and the greatest of the samples that it
/// averages.
pub proof fn law_mean_within_samples<T: MeanSample>(
    src: Grid2<T>,
    row: int,
    col: int,
    scale: int,
    nodata: Option<T>,
    low: int,
    high: int,
)
    requires
        0 <= row,
        0 <= col,
        0 < scale,
        T::least() <= low,
        high <= T::greatest(),
        cell_total(src, row, col, scale, nodata).1 > 0,
        forall|r: int, c: int|
            row * scale <= r < row * scale + scale && col * scale <= c < col * scale + scale
                && src.has(r, c) ==> nodata == Some(src.at(r, c)) || low <= (#[trigger] src.at(
                r,
                c,
            )).number() <= high,
    ensures
        low <= block_mean(cell_total(src, row, col, scale, nodata), nodata).number() <= high,
{
    let row_from = row * scale;
    let col_from = col * scale;
    lemma_mul_bound(row, scale, row, scale);
    lemma_mul_bound(col, scale, col, scale);
    let row_to = min_of(row_from + scale, src.rows as int);
    let col_to = min_of(col_from + scale, src.cols as int);
    let total = cell_total(src, row, col, scale, nodata);
    if row_to >= row_from && col_to >= col_from {
        lemma_block_total_bounds(src, row_from, row_to, col_from, col_to, nodata, low, high);
        lemma_rounded_mean_bounds(total.0, total.1, low, high);
        T::numbers_are_covered(rounded_mean(total.0, total.1));
    } else {
        lemma_block_total_empty(src, row_from, row_to, col_from, col_to, nodata);
    }
}

proof fn lemma_block_total_empty<T: MeanSample>(
    src: Grid2<T>,
    row_from: int,
    row_to: int,
    col_from: int,
    col_to: int,
    nodata: Option<T>,
)
    requires
        row_to <= row_from || col_to <= col_from,
    ensures
        block_total(src, row_from, row_to, col_from, col_to, nodata) == (0int, 0int),
    decreases row_to - row_from,
{
    if row_from < row_to {
        lemma_block_total_empty(src, row_from, row_to - 1, col_from, col_to, nodata);
    }
}

/// A raster of one value keeps that value at every reduction.
pub proof fn law_constant_raster_keeps_value<T: MeanSample>(
    src: Grid2<T>,
    row: int,
    col: int,
    scale: int,
    nodata: Option<T>,
    value: T,
)
    requires
        0 < scale,
        src.has(row * scale, col * scale),
        0 <= row,
        0 <= col,
        nodata != Some(value),
        forall|r: int, c: int| src.has(r, c) ==> #[trigger] src.at(r, c) == value,
    ensures
        block_mean(cell_total(src, row, col, scale, nodata), nodata) == value,
{
    let row_from = row * scale;
    let col_from = col * scale;
    let row_to = min_of(row_from + scale, src.rows as int);
    let col_to = min_of(col_from + scale, src.cols as int);
    let total = cell_total(src, row, col, scale, nodata);
    T::numbers_are_faithful(value, value);
    lemma_constant_block_count(src, row_from, row_to, col_from, col_to, nodata, value);
    law_mean_within_samples(src, row, col, scale, nodata, value.number(), value.number());
    T::numbers_are_faithful(value, block_mean(total, nodata));
}

proof fn lemma_constant_block_count<T: MeanSample>(
    src: Grid2<T>,
    row_from: int,
    row_to: int,
    col_from: int,
    col_to: int,
    nodata: Option<T>,
    value: T,
)
    requires
        0 <= row_from < row_to <= src.rows,
        0 <= col_from < col_to <= src.cols,
        nodata != Some(value),
        forall|r: int, c: int| src.has(r, c) ==> #[trigger] src.at(r, c) == value,
    ensures
        block_total(src, row_from, row_to, col_from, col_to, nodata).1 > 0,
    decreases row_to - row_from,
{
    lemma_constant_run_count(src, row_to - 1, col_from, col_to, nodata, value);
    if row_to - 1 > row_from {
        lemma_constant_block_count(src, row_from, row_to - 1, col_from, col_to, nodata, value);
    } else {
        assert(block_total(src, row_from, row_to - 1, col_from, col_to, nodata) == (0int, 0int));
    }
}

proof fn lemma_constant_run_count<T: MeanSample>(
    src: Grid2<T>,
    row: int,
    from: int,
    to: int,
    nodata: Option<T>,
    value: T,
)
    requires
        0 <= row < src.rows,
        0 <= from <= to <= src.cols,
        nodata != Some(value),
        forall|r: int, c: int| src.has(r, c) ==> #[trigger] src.at(r, c) == value,
    ensures
        run_total(src, row, from, to, nodata).1 == to - from,
    decreases to - from,
{
    if from < to {
        assert(src.has(row, to - 1));
        lemma_constant_run_count(src, row, from, to - 1, nodata, value);
    }
}

fn sum_block<T: MeanSample>(
    src: &Grid2<T>,
    row_from: usize,
    row_to: usize,
    col_from: usize,
    col_to: usize,
    nodata: Option<T>,
) -> (total: (i128, usize))
    requires
        src.well_formed(),
        row_from <= row_to <= src.rows,
        col_from <= col_to <= src.cols,
    ensures
        ({
            let expected = block_total(
                *src,
                row_from as int,
                row_to as int,
                col_from as int,
                col_to as int,
                nodata,
            );
            &&& total.0 == expected.0
            &&& total.1 == expected.1
            &&& -65536 * total.1 <= total.0 <= 65536 * total.1
        }),
{
    let length: usize = src.samples.len();
    let mut sum: i128 = 0;
    let mut count: usize = 0;
    let mut row: usize = row_from;
    proof {
        assert forall|r: int, c: int| src.has(r, c) implies -65536 <= (#[trigger] src.at(
            r,
            c,
        )).number() <= 65536 by {
            T::numbers_are_faithful(src.at(r, c), src.at(r, c));
        }
    }
    while row < row_to
        invariant
            src.well_formed(),
            length == src.samples@.len(),
            row_from <= row <= row_to <= src.rows,
            col_from <= col_to <= src.cols,
            forall|r: int, c: int|
                src.has(r, c) ==> -65536 <= (#[trigger] src.at(r, c)).number() <= 65536,
            ({
                let expected = block_total(
                    *src,
                    row_from as int,
                    row as int,
                    col_from as int,
                    col_to as int,
                    nodata,
                );
                &&& sum == expected.0
                &&& count == expected.1
            }),
        decreases row_to - row,
    {
        let ghost front = block_total(
            *src,
            row_from as int,
            row as int,
            col_from as int,
            col_to as int,
            nodata,
        );
        let mut col: usize = col_from;
        proof {
            lemma_block_total_bounds(
                *src,
                row_from as int,
                row + 1,
                col_from as int,
                col_to as int,
                nodata,
                -65536,
                65536,
            );
            lemma_mul_bound(
                row + 1 - row_from,
                col_to - col_from,
                src.rows as int,
                src.cols as int,
            );
            lemma_block_total_bounds(
                *src,
                row_from as int,
                row as int,
                col_from as int,
                col_to as int,
                nodata,
                -65536,
                65536,
            );
        }
        while col < col_to
            invariant
                src.well_formed(),
                length == src.samples@.len(),
                row_from <= row < row_to <= src.rows,
                col_from <= col <= col_to <= src.cols,
                forall|r: int, c: int|
                    src.has(r, c) ==> -65536 <= (#[trigger] src.at(r, c)).number() <= 65536,
                ({
                    let run = run_total(*src, row as int, col_from as int, col as int, nodata);
                    &&& sum == front.0 + run.0
                    &&& count == front.1 + run.1
                }),
                front.1 >= 0,
                -65536 * front.1 <= front.0 <= 65536 * front.1,
                front.1 <= (row - row_from) * (col_to - col_from),
                (row + 1 - row_from) * (col_to - col_from) <= length,
            decreases col_to - col,
        {
            let value: T = src.get(row, col);
            proof {
                T::numbers_are_faithful(
                    value,
                    match nodata {
                        Some(nd) => nd,
                        None => value,
                    },
                );
                assert(src.has(row as int, col as int));
                lemma_run_total_bounds(
                    *src,
                    row as int,
                    col_from as int,
                    col as int,
                    nodata,
                    -65536,
                    65536,
                );
                assert((row + 1 - row_from) * (col_to - col_from) == (row - row_from) * (col_to
                    - col_from) + (col_to - col_from)) by (nonlinear_arith);
            }
            if !is_nodata(value, nodata) {
                sum = sum + value.to_number();
                count = count + 1;
            }
            col = col + 1;
        }
        row = row + 1;
    }
    proof {
        lemma_block_total_bounds(
            *src,
            row_from as int,
            row_to as int,
            col_from as int,
            col_to as int,
            nodata,
            -65536,
            65536,
        );
    }
    (sum, count)
}

fn average_cell<T: MeanSample>(
    src: &Grid2<T>,
    row: usize,
    col: usize,
    scale: usize,
    nodata: Option<T>,
) -> (mean: T)
    requires
        src.well_formed(),
        row * scale + scale <= usize::MAX,
        col * scale + scale <= usize::MAX,
    ensures
        mean == block_mean(
            cell_total(*src, row as int, col as int, scale as int, nodata),
            nodata,
        ),
{
    proof {
        lemma_mul_bound(row as int, scale as int, row as int, scale as int);
        lemma_mul_bound(col as int, scale as int, col as int, scale as int);
    }
    let row_from: usize = row * scale;
    let col_from: usize = col * scale;
    let row_end: usize = row_from + scale;
    let col_end: usize = col_from + scale;
    let row_to: usize = if row_end < src.rows {
        row_end
    } else {
        src.rows
    };
    let col_to: usize = if col_end < src.cols {
        col_end
    } else {
        src.cols
    };
    let (sum, count): (i128, usize) = if row_to < row_from || col_to < col_from {
        proof {
            lemma_block_total_empty(
                *src,
                row_from as int,
                row_to as int,
                col_from as int,
                col_to as int,
                nodata,
            );
        }
        (0, 0)
    } else {
        sum_block(src, row_from, row_to, col_from, col_to, nodata)
    };
    proof {
        if count > 0 {
            assert forall|r: int, c: int| src.has(r, c) implies T::least() <= (#[trigger] src.at(
                r,
                c,
            )).number() <= T::greatest() by {
                T::numbers_are_faithful(src.at(r, c), src.at(r, c));
            }
            lemma_block_total_bounds(
                *src,
                row_from as int,
                row_to as int,
                col_from as int,
                col_to as int,
                nodata,
                T::least(),
                T::greatest(),
            );
            lemma_rounded_mean_bounds(sum as int, count as int, T::least(), T::greatest());
        } else {
            T::numbers_are_faithful(T::of_number(0), T::of_number(0));
        }
    }
    if count == 0 {
        match nodata {
            Some(nd) => nd,
            None => T::from_number(0),
        }
    } else {
        let wide: i128 = count as i128;
        let mean: i128 = if sum >= 0 {
            (2 * sum + wide) / (2 * wide)
        } else {
            -((2 * (-sum) + wide) / (2 * wide))
        };
        T::from_number(mean)
    }
}

/// Averages every `scale` by `scale` block.
pub fn average_downsample_2d<T: MeanSample>(
    src: &Grid2<T>,
    out_rows: usize,
    out_cols: usize,
    scale: usize,
    nodata: Option<T>,
) -> (out: Grid2<T>)
    requires
        src.well_formed(),
        out_rows * out_cols <= usize::MAX,
        out_rows * scale <= usize::MAX,
        out_cols * scale <= usize::MAX,
    ensures
        out.well_formed(),
        out.rows == out_rows,
        out.cols == out_cols,
        forall|r: int, c: int|
            out.has(r, c) ==> #[trigger] out.at(r, c) == block_mean(
                cell_total(*src, r, c, scale as int, nodata),
                nodata,
            ),
{
    let pick = |r: usize, c: usize| -> (mean: T)
        requires
            r < out_rows,
            c < out_cols,
        ensures
            mean == block_mean(
                cell_total(*src, r as int, c as int, scale as int, nodata),
                nodata,
            ),
        {
            proof {
                lemma_mul_bound(r + 1, scale as int, out_rows as int, scale as int);
                lemma_mul_bound(c + 1, scale as int, out_cols as int, scale as int);
                assert((r + 1) * scale == r * scale + scale) by (nonlinear_arith);
                assert((c + 1) * scale == c * scale + scale) by (nonlinear_arith);
            }
            average_cell(src, r, c, scale, nodata)
        };
    let samples: Vec<T> = build2(out_rows, out_cols, pick);
    Grid2 { rows: out_rows, cols: out_cols, samples }
}

/// What a method that works on integers makes of a cell.
pub open spec fn reduced_sample<T: MeanSample>(
    src: Grid2<T>,
    row: int,
    col: int,
    scale: int,
    method: ResamplingChoice,
    nodata: Option<T>,
) -> T {
    match method {
        ResamplingChoice::Nearest => src.at(
            nearest_line(row, scale, src.rows as int),
            nearest_line(col, scale, src.cols as int),
        ),
        _ => block_mean(cell_total(src, row, col, scale, nodata), nodata),
    }
}

/// Whether a method needs no fractional weights.
pub open spec fn integral_method(method: ResamplingChoice) -> bool {
    method == ResamplingChoice::Nearest || method == ResamplingChoice::Average
}

/// Reduces a grid by a method that works on integers; none where the method weighs the
/// samples by fractions.
pub fn downsample_2d<T: MeanSample>(
    src: &Grid2<T>,
    out_rows: usize,
    out_cols: usize,
    scale: usize,
    method: ResamplingChoice,
    nodata: Option<T>,
) -> (result: Option<Grid2<T>>)
    requires
        src.well_formed(),
        out_rows * out_cols <= usize::MAX,
        method == ResamplingChoice::Nearest && out_rows > 0 && out_cols > 0 ==> src.rows > 0
            && src.cols > 0,
        out_rows * scale <= usize::MAX,
        out_cols * scale <= usize::MAX,
    ensures
        match result {
            Some(out) => {
                &&& integral_method(method)
                &&& out.well_formed()
                &&& out.rows == out_rows
                &&& out.cols == out_cols
                &&& forall|r: int, c: int|
                    out.has(r, c) ==> #[trigger] out.at(r, c) == reduced_sample(
                        *src,
                        r,
                        c,
                        scale as int,
                        method,
                        nodata,
                    )
            },
            None => !integral_method(method),
        },
{
    match method {
        ResamplingChoice::Nearest => {
            let out: Grid2<T> = nearest_downsample_2d(src, out_rows, out_cols, scale, nodata);
            proof {
                assert forall|r: int, c: int| out.has(r, c) implies #[trigger] out.at(r, c)
                    == reduced_sample(*src, r, c, scale as int, method, nodata) by {
                    let value = src.at(
                        nearest_line(r, scale as int, src.rows as int),
                        nearest_line(c, scale as int, src.cols as int),
                    );
                    T::numbers_are_faithful(
                        value,
                        match nodata {
                            Some(nd) => nd,
                            None => value,
                        },
                    );
                }
            }
            Some(out)
        },
        ResamplingChoice::Average => {
            Some(average_downsample_2d(src, out_rows, out_cols, scale, nodata))
        },
        _ => None,
    }
}

/// The bands of `planes`, interleaved pixel by pixel.
pub fn interleave<T: Copy>(planes: &Vec<Grid2<T>>, rows: usize, cols: usize) -> (out: Grid3<T>)
    requires
        rows * cols * planes@.len() <= usize::MAX,
        forall|b: int|
            0 <= b < planes@.len() ==> (#[trigger] planes@[b]).well_formed() && planes@[b].rows
                == rows && planes@[b].cols == cols,
    ensures
        out.well_formed(),
        out.rows == rows,
        out.cols == cols,
        out.bands == planes@.len(),
        forall|r: int, c: int, b: int|
            out.has(r, c, b) ==> #[trigger] out.at(r, c, b) == planes@[b].at(r, c),
{
    let bands: usize = planes.len();
    let pick = |r: usize, c: usize, b: usize| -> (value: T)
        requires
            r < rows,
            c < cols,
            b < bands,
        ensures
            value == planes@[b as int].at(r as int, c as int),
        {
            let plane: &Grid2<T> = &planes[b];
            plane.get(r, c)
        };
    let samples: Vec<T> = build3(rows, cols, bands, pick);
    Grid3 { rows, cols, bands, samples }
}

/// A band of a grid as a grid of its own.
pub open spec fn is_band<T>(plane: Grid2<T>, src: Grid3<T>, band: int) -> bool {
    &&& plane.well_formed()
    &&& plane.rows == src.rows
    &&& plane.cols == src.cols
    &&& forall|r: int, c: int| plane.has(r, c) ==> #[trigger] plane.at(r, c) == src.at(r, c, band)
}

/// Whether band `band` of `out` is the reduction of that band of `src`.
pub open spec fn band_reduced<T: MeanSample>(
    out: Grid3<T>,
    src: Grid3<T>,
    band: int,
    scale: int,
    method: ResamplingChoice,
    nodata: Option<T>,
) -> bool {
    exists|plane: Grid2<T>| #[trigger]
        is_band(plane, src, band) && forall|r: int, c: int|
            out.has(r, c, band) ==> #[trigger] out.at(r, c, band) == reduced_sample(
                plane,
                r,
                c,
                scale,
                method,
                nodata,
            )
}

/// Reduces every band of a grid by a method that works on integers; none where the
/// method weighs the samples by fractions.
pub fn downsample_3d<T: MeanSample>(
    src: &Grid3<T>,
    out_rows: usize,
    out_cols: usize,
    scale: usize,
    method: ResamplingChoice,
    nodata: Option<T>,
) -> (result: Option<Grid3<T>>)
    requires
        src.well_formed(),
        out_rows * out_cols * src.bands <= usize::MAX,
        out_rows * out_cols <= usize::MAX,
        method == ResamplingChoice::Nearest && src.bands > 0 && out_rows > 0 && out_cols > 0
            ==> src.rows > 0 && src.cols > 0,
        out_rows * scale <= usize::MAX,
        out_cols * scale <= usize::MAX,
    ensures
        match result {
            Some(out) => {
                &&& integral_method(method)
                &&& out.well_formed()
                &&& out.rows == out_rows
                &&& out.cols == out_cols
                &&& out.bands == src.bands
                &&& forall|b: int|
                    0 <= b < out.bands ==> #[trigger] band_reduced(
                        out,
                        *src,
                        b,
                        scale as int,
                        method,
                        nodata,
                    )
            },
            None => !integral_method(method),
        },
{
    match method {
        ResamplingChoice::Nearest | ResamplingChoice::Average => {},
        _ => {
            return None;
        },
    }
    let mut planes: Vec<Grid2<T>> = Vec::new();
    let ghost mut sources: Seq<Grid2<T>> = Seq::empty();
    let mut band: usize = 0;
    while band < src.bands
        invariant
            band <= src.bands,
            src.well_formed(),
            integral_method(method),
            out_rows * out_cols <= usize::MAX,
            method == ResamplingChoice::Nearest && src.bands > 0 && out_rows > 0 && out_cols > 0
                ==> src.rows > 0 && src.cols > 0,
            out_rows * scale <= usize::MAX,
            out_cols * scale <= usize::MAX,
            planes@.len() == band,
            sources.len() == band,
            forall|b: int|
                0 <= b < planes@.len() ==> {
                    &&& (#[trigger] planes@[b]).well_formed()
                    &&& planes@[b].rows == out_rows
                    &&& planes@[b].cols == out_cols
                    &&& is_band(sources[b], *src, b)
                    &&& forall|r: int, c: int|
                        planes@[b].has(r, c) ==> #[trigger] planes@[b].at(r, c) == reduced_sample(
                            sources[b],
                            r,
                            c,
                            scale as int,
                            method,
                            nodata,
                        )
                },
        decreases src.bands - band,
    {
        let plane: Grid2<T> = src.band(band);
        match downsample_2d(&plane, out_rows, out_cols, scale, method, nodata) {
            Some(reduced) => {
                planes.push(reduced);
                proof {
                    sources = sources.push(plane);
                }
            },
            None => {
                return None;
            },
        }
        band = band + 1;
    }
    let out: Grid3<T> = interleave(&planes, out_rows, out_cols);
    proof {
        assert forall|b: int| 0 <= b < out.bands implies #[trigger] band_reduced(
            out,
            *src,
            b,
            scale as int,
            method,
            nodata,
        ) by {
            assert(planes@[b].well_formed());
            assert(is_band(sources[b], *src, b));
            assert forall|r: int, c: int| out.has(r, c, b) implies #[trigger] out.at(r, c, b)
                == reduced_sample(sources[b], r, c, scale as int, method, nodata) by {
                assert(planes@[b].has(r, c));
                assert(out.at(r, c, b) == planes@[b].at(r, c));
            }
        }
    }
    Some(out)
}

/// The mean is taken of the values of the samples themselves.
pub proof fn law_numbers_are_values(a: u8, b: i8, c: u16, d: i16)
    ensures
        a.number() == a,
        b.number() == b,
        c.number() == c,
        d.number() == d,
        <u8 as MeanSample>::of_number(a as int) == a,
        <i8 as MeanSample>::of_number(b as int) == b,
        <u16 as MeanSample>::of_number(c as int) == c,
        <i16 as MeanSample>::of_number(d as int) == d,
{
}

/// The value of a cell that counts: one that exists and does not stand for missing data. All
/// others have no value.
pub open spec fn counted_value<T: MeanSample>(src: Grid2<T>, nodata: Option<T>) -> spec_fn(
    int,
    int,
) -> int {
    |r: int, c: int|
        if src.has(r, c) && nodata != Some(src.at(r, c)) {
            src.at(r, c).number()
        } else {
            0
        }
}

/// One for each cell that counts.
pub open spec fn counted_cell<T: MeanSample>(src: Grid2<T>, nodata: Option<T>) -> spec_fn(
    int,
    int,
) -> int {
    |r: int, c: int|
        if src.has(r, c) && nodata != Some(src.at(r, c)) {
            1
        } else {
            0
        }
}

proof fn lemma_run_is_sum<T: MeanSample>(
    src: Grid2<T>,
    row: int,
    from: int,
    count: nat,
    nodata: Option<T>,
)
    requires
        0 <= row < src.rows,
        0 <= from,
    ensures
        ({
            let to = min_of(from + count, src.cols as int);
            let total = run_total(src, row, from, to, nodata);
            &&& total.0 == sum_line(counted_value(src, nodata), row, from, count)
            &&& total.1 == sum_line(counted_cell(src, nodata), row, from, count)
        }),
    decreases count,
{
    if count > 0 {
        lemma_run_is_sum(src, row, from, (count - 1) as nat, nodata);
        let last = from + count - 1;
        if last < src.cols {
            assert(src.has(row, last));
        } else {
            assert(!src.has(row, last));
        }
    }
}

proof fn lemma_empty_line<T: MeanSample>(
    src: Grid2<T>,
    row: int,
    from: int,
    count: nat,
    nodata: Option<T>,
)
    requires
        row >= src.rows,
    ensures
        sum_line(counted_value(src, nodata), row, from, count) == 0,
        sum_line(counted_cell(src, nodata), row, from, count) == 0,
    decreases count,
{
    if count > 0 {
        lemma_empty_line(src, row, from, (count - 1) as nat, nodata);
        assert(!src.has(row, from + count - 1));
    }
}

proof fn lemma_block_is_sum<T: MeanSample>(
    src: Grid2<T>,
    row: int,
    col: int,
    rows: nat,
    cols: nat,
    nodata: Option<T>,
)
    requires
        0 <= row,
        0 <= col,
    ensures
        ({
            let total = block_total(
                src,
                row,
                min_of(row + rows, src.rows as int),
                col,
                min_of(col + cols, src.cols as int),
                nodata,
            );
            &&& total.0 == sum_area(counted_value(src, nodata), row, col, rows, cols)
            &&& total.1 == sum_area(counted_cell(src, nodata), row, col, rows, cols)
        }),
    decreases rows,
{
    if rows > 0 {
        lemma_block_is_sum(src, row, col, (rows - 1) as nat, cols, nodata);
        let last = row + rows - 1;
        if last < src.rows {
            lemma_run_is_sum(src, last, col, cols, nodata);
        } else {
            lemma_empty_line(src, last, col, cols, nodata);
        }
    }
}

proof fn lemma_counts_are_positive<T: MeanSample>(
    src: Grid2<T>,
    row: int,
    col: int,
    rows: nat,
    cols: nat,
    nodata: Option<T>,
)
    requires
        0 <= row,
        0 <= col,
    ensures
        ({
            let sum = sum_area(counted_value(src, nodata), row, col, rows, cols);
            let count = sum_area(counted_cell(src, nodata), row, col, rows, cols);
            &&& 0 <= count
            &&& T::least() * count <= sum <= T::greatest() * count
        }),
{
    let row_to = min_of(row + rows, src.rows as int);
    let col_to = min_of(col + cols, src.cols as int);
    lemma_block_is_sum(src, row, col, rows, cols, nodata);
    if row <= row_to && col <= col_to {
        assert forall|r: int, c: int|
            row <= r < row_to && col <= c < col_to implies nodata == Some(src.at(r, c))
            || T::least() <= (#[trigger] src.at(r, c)).number() <= T::greatest() by {
            T::numbers_are_faithful(src.at(r, c), src.at(r, c));
        }
        lemma_block_total_bounds(
            src,
            row,
            row_to,
            col,
            col_to,
            nodata,
            T::least(),
            T::greatest(),
        );
    } else {
        lemma_block_total_empty(src, row, row_to, col, col_to, nodata);
        assert(T::least() * 0 == 0 && T::greatest() * 0 == 0);
    }
}

/// The average of a cell is the integer next to the quotient of sum and count over all of the
/// `scale` by `scale` cells that it stands for, which begin at `row * scale` and
/// `col * scale`: those beyond the edge and those that stand for missing data do not count,
/// and a half is rounded away from zero. Where none counts, it is the value for missing data,
/// or zero.
pub proof fn law_average_is_mean_of_block<T: MeanSample>(
    src: Grid2<T>,
    row: int,
    col: int,
    scale: nat,
    nodata: Option<T>,
    mean: T,
)
    requires
        0 <= row,
        0 <= col,
        0 < scale,
        mean == reduced_sample(src, row, col, scale as int, ResamplingChoice::Average, nodata),
    ensures
        ({
            let sum = sum_area(
                |r: int, c: int|
                    if src.has(r, c) && nodata != Some(src.at(r, c)) {
                        src.at(r, c).number()
                    } else {
                        0
                    },
                row * scale,
                col * scale,
                scale,
                scale,
            );
            let count = sum_area(
                |r: int, c: int|
                    if src.has(r, c) && nodata != Some(src.at(r, c)) {
                        1
                    } else {
                        0
                    },
                row * scale,
                col * scale,
                scale,
                scale,
            );
            &&& count > 0 && sum >= 0 ==> 2 * sum - count < 2 * (count * mean.number()) <= 2 * sum
                + count
            &&& count > 0 && sum < 0 ==> 2 * sum - count <= 2 * (count * mean.number()) < 2 * sum
                + count
            &&& count == 0 && nodata is Some ==> mean == nodata->0
            &&& count == 0 && nodata is None ==> mean.number() == 0
        }),
{
    let value = |r: int, c: int|
        if src.has(r, c) && nodata != Some(src.at(r, c)) {
            src.at(r, c).number()
        } else {
            0
        };
    let one = |r: int, c: int|
        if src.has(r, c) && nodata != Some(src.at(r, c)) {
            1
        } else {
            0
        };
    let s = scale as int;
    lemma_mul_bound(row, s, row, s);
    lemma_mul_bound(col, s, col, s);
    lemma_block_is_sum(src, row * s, col * s, scale, scale, nodata);
    lemma_counts_are_positive(src, row * s, col * s, scale, scale, nodata);
    lemma_same_area(value, counted_value(src, nodata), row * s, col * s, 0, 0, scale, scale);
    lemma_same_area(one, counted_cell(src, nodata), row * s, col * s, 0, 0, scale, scale);
    let sum = sum_area(value, row * s, col * s, scale, scale);
    let count = sum_area(one, row * s, col * s, scale, scale);
    let any = src.at(0, 0);
    T::numbers_are_faithful(any, any);
    if count > 0 {
        lemma_rounded_mean_bounds(sum, count, T::least(), T::greatest());
        T::numbers_are_covered(rounded_mean(sum, count));
        let m = mean.number();
        assert(m == rounded_mean(sum, count));
        let twice = 2 * count;
        if sum >= 0 {
            lemma_fundamental_div_mod(2 * sum + count, twice);
            assert(twice * m == 2 * (count * m)) by (nonlinear_arith)
                requires
                    twice == 2 * count,
            ;
        } else {
            lemma_fundamental_div_mod(2 * (-sum) + count, twice);
            let q = (2 * (-sum) + count) / twice;
            assert(m == -q);
            assert(twice * q == -(2 * (count * m))) by (nonlinear_arith)
                requires
                    twice == 2 * count,
                    m == -q,
            ;
        }
    } else {
        T::numbers_are_covered(0);
    }
}

/// The nearest sample of a cell is the first of those that the cell stands for, or the last
/// of the source in a row or column beyond its edge.
pub proof fn law_nearest_is_first_of_block<T: MeanSample>(
    src: Grid2<T>,
    row: int,
    col: int,
    scale: nat,
    nodata: Option<T>,
)
    requires
        0 <= row,
        0 <= col,
        0 < src.rows,
        0 < src.cols,
    ensures
        ({
            let found = reduced_sample(
                src,
                row,
                col,
                scale as int,
                ResamplingChoice::Nearest,
                nodata,
            );
            &&& src.has(row * scale, col * scale) ==> found == src.at(row * scale, col * scale)
            &&& row * scale >= src.rows && col * scale < src.cols ==> found == src.at(
                src.rows - 1,
                col * scale,
            )
            &&& row * scale < src.rows && col * scale >= src.cols ==> found == src.at(
                row * scale,
                src.cols - 1,
            )
        }),
{
}

} // verus!
