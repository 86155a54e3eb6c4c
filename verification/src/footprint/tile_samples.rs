//! What is read to tell the valid pixels of a tile, and what it tells.
use crate::footprint::mask::{
    alpha_to_validity, alpha_u16_to_validity, black_rgb_u16_to_validity, black_rgb_u8_to_validity,
    mask_to_validity, nodata_to_validity, validity_byte, validity_of, NodataSample, ValidityMask,
    ValidityRead,
};
use crate::footprint::options::{NodataKind, NodataValue};
use crate::raster::{lemma_cell2, sample2, Grid2, Grid3};
use vstd::prelude::*;

verus! {

/// A value for missing data.
#[derive(Debug, Clone, Copy, PartialEq, Eq, Structural)]
pub enum MissingValue {
    /// A whole number.
    Exact(NodataValue),
    /// A floating-point number, which samples are compared with where they are read.
    Float,
}

/// The samples that were read for a tile.
#[derive(Debug)]
pub enum TileSamples {
    /// Nothing is read.
    Nothing,
    /// A mask.
    Mask(Grid2<u8>),
    /// An alpha band.
    Alpha(Grid2<u8>),
    WideAlpha(Grid2<u16>),
    /// All bands of a color image.
    Colors(Grid3<u8>),
    WideColors(Grid3<u16>),
    /// A band whose samples are compared with the value for missing data.
    U8(Grid2<u8>),
    U16(Grid2<u16>),
    U32(Grid2<u32>),
    I8(Grid2<i8>),
    I16(Grid2<i16>),
    I32(Grid2<i32>),
    /// Of a band of floating-point numbers, whether each sample is missing.
    Float(Grid2<bool>),
}

/// What is read of one pixel.
pub enum Pixel {
    Nothing,
    /// A sample of a mask or of an alpha band.
    Mask(int),
    /// The first three bands.
    Color(int, int, int),
    U8(u8),
    U16(u16),
    U32(u32),
    I8(i8),
    I16(i16),
    I32(i32),
    /// Whether a floating-point number is missing.
    Float(bool),
}

/// Whether a pixel is valid: a mask or alpha sample that is not zero, a color that is not
/// black, a sample that is not the value for missing data.
pub open spec fn pixel_valid(pixel: Pixel, missing: Option<MissingValue>) -> bool {
    match pixel {
        Pixel::Nothing => true,
        Pixel::Mask(value) => value != 0,
        Pixel::Color(red, green, blue) => !(red == 0 && green == 0 && blue == 0),
        Pixel::U8(value) => !is_exactly(value, missing),
        Pixel::U16(value) => !is_exactly(value, missing),
        Pixel::U32(value) => !is_exactly(value, missing),
        Pixel::I8(value) => !is_exactly(value, missing),
        Pixel::I16(value) => !is_exactly(value, missing),
        Pixel::I32(value) => !is_exactly(value, missing),
        Pixel::Float(absent) => !absent,
    }
}

/// Whether a sample is the value for missing data.
pub open spec fn is_exactly<T: NodataSample>(value: T, missing: Option<MissingValue>) -> bool {
    match missing {
        Some(MissingValue::Exact(nodata)) => value.is_missing(nodata),
        _ => false,
    }
}

impl TileSamples {
    /// What was read of the pixel in column `col` of row `row` of the tile.
    pub open spec fn pixel(&self, row: int, col: int) -> Pixel {
        match *self {
            TileSamples::Nothing => Pixel::Nothing,
            TileSamples::Mask(grid) => Pixel::Mask(grid.at(row, col) as int),
            TileSamples::Alpha(grid) => Pixel::Mask(grid.at(row, col) as int),
            TileSamples::WideAlpha(grid) => Pixel::Mask(grid.at(row, col) as int),
            TileSamples::Colors(grid) => Pixel::Color(
                grid.at(row, col, 0) as int,
                grid.at(row, col, 1) as int,
                grid.at(row, col, 2) as int,
            ),
            TileSamples::WideColors(grid) => Pixel::Color(
                grid.at(row, col, 0) as int,
                grid.at(row, col, 1) as int,
                grid.at(row, col, 2) as int,
            ),
            TileSamples::U8(grid) => Pixel::U8(grid.at(row, col)),
            TileSamples::U16(grid) => Pixel::U16(grid.at(row, col)),
            TileSamples::U32(grid) => Pixel::U32(grid.at(row, col)),
            TileSamples::I8(grid) => Pixel::I8(grid.at(row, col)),
            TileSamples::I16(grid) => Pixel::I16(grid.at(row, col)),
            TileSamples::I32(grid) => Pixel::I32(grid.at(row, col)),
            TileSamples::Float(grid) => Pixel::Float(grid.at(row, col)),
        }
    }

    /// Whether there are samples for each pixel of a tile of this size.
    pub open spec fn covers(&self, rows: int, cols: int) -> bool {
        match *self {
            TileSamples::Nothing => true,
            TileSamples::Mask(grid) => grid_covers(grid, rows, cols),
            TileSamples::Alpha(grid) => grid_covers(grid, rows, cols),
            TileSamples::WideAlpha(grid) => grid_covers(grid, rows, cols),
            TileSamples::Colors(grid) => colors_cover(grid, rows, cols),
            TileSamples::WideColors(grid) => colors_cover(grid, rows, cols),
            TileSamples::U8(grid) => grid_covers(grid, rows, cols),
            TileSamples::U16(grid) => grid_covers(grid, rows, cols),
            TileSamples::U32(grid) => grid_covers(grid, rows, cols),
            TileSamples::I8(grid) => grid_covers(grid, rows, cols),
            TileSamples::I16(grid) => grid_covers(grid, rows, cols),
            TileSamples::I32(grid) => grid_covers(grid, rows, cols),
            TileSamples::Float(grid) => grid_covers(grid, rows, cols),
        }
    }

    /// Whether the samples are those that had to be read.
    pub open spec fn answers(&self, read: ValidityRead, missing: Option<MissingValue>) -> bool {
        match (read, *self) {
            (ValidityRead::Nothing, TileSamples::Nothing) => true,
            (ValidityRead::DatasetMask, TileSamples::Mask(_)) => true,
            (ValidityRead::Alpha { wide, .. }, TileSamples::Alpha(_)) => !wide,
            (ValidityRead::Alpha { wide, .. }, TileSamples::WideAlpha(_)) => wide,
            (ValidityRead::Colors { wide }, TileSamples::Colors(_)) => !wide,
            (ValidityRead::Colors { wide }, TileSamples::WideColors(_)) => wide,
            (ValidityRead::Samples(kind), TileSamples::Float(_)) => kind == NodataKind::F32 || kind
                == NodataKind::F64,
            (ValidityRead::Samples(kind), _) => missing matches Some(MissingValue::Exact(_))
                && self.kind() == Some(kind),
            _ => false,
        }
    }

    /// The kind of the samples that are compared with a whole number.
    pub open spec fn kind(&self) -> Option<NodataKind> {
        match *self {
            TileSamples::U8(_) => Some(NodataKind::U8),
            TileSamples::U16(_) => Some(NodataKind::U16),
            TileSamples::U32(_) => Some(NodataKind::U32),
            TileSamples::I8(_) => Some(NodataKind::I8),
            TileSamples::I16(_) => Some(NodataKind::I16),
            TileSamples::I32(_) => Some(NodataKind::I32),
            _ => None,
        }
    }

    /// Whether the samples tell the valid pixels of a tile of this size.
    pub open spec fn tells(
        &self,
        read: ValidityRead,
        missing: Option<MissingValue>,
        rows: int,
        cols: int,
    ) -> bool {
        self.answers(read, missing) && self.covers(rows, cols)
    }
}

/// Whether a grid has this size, and a sample for each cell.
pub open spec fn grid_covers<T>(grid: Grid2<T>, rows: int, cols: int) -> bool {
    grid.rows == rows && grid.cols == cols && grid.well_formed()
}

/// Whether an image has this size, three bands, and a sample for each band of each pixel.
pub open spec fn colors_cover<T>(grid: Grid3<T>, rows: int, cols: int) -> bool {
    grid.rows == rows && grid.cols == cols && grid.bands >= 3 && grid.well_formed()
}

/// Whether bytes say of each pixel of a tile whether it is valid.
pub open spec fn bytes_tell(
    bytes: Seq<u8>,
    samples: TileSamples,
    missing: Option<MissingValue>,
    rows: int,
    cols: int,
) -> bool {
    &&& bytes.len() == rows * cols
    &&& forall|r: int, c: int|
        0 <= r < rows && 0 <= c < cols ==> #[trigger] sample2(bytes, cols, r, c) == validity_byte(
            pixel_valid(samples.pixel(r, c), missing),
        )
}

fn has_size<T>(grid: &Grid2<T>, rows: usize, cols: usize) -> (has: bool)
    requires
        rows * cols <= usize::MAX,
    ensures
        has == grid_covers(*grid, rows as int, cols as int),
{
    grid.rows == rows && grid.cols == cols && grid.samples.len() == rows * cols
}

fn has_colors<T>(grid: &Grid3<T>, rows: usize, cols: usize) -> (has: bool)
    requires
        rows * cols <= usize::MAX,
    ensures
        has == colors_cover(*grid, rows as int, cols as int),
{
    if grid.rows != rows || grid.cols != cols || grid.bands < 3 {
        return false;
    }
    let count: usize = grid.samples.len();
    match (rows * cols).checked_mul(grid.bands) {
        Some(samples) => count == samples,
        None => false,
    }
}

fn exact_validity<T: NodataSample>(
    grid: &Grid2<T>,
    missing: Option<MissingValue>,
    rows: usize,
    cols: usize,
) -> (bytes: Option<Vec<u8>>)
    requires
        rows * cols <= usize::MAX,
    ensures
        match bytes {
            Some(found) => {
                &&& missing matches Some(MissingValue::Exact(_))
                &&& grid_covers(*grid, rows as int, cols as int)
                &&& found@.len() == rows * cols
                &&& forall|i: int|
                    0 <= i < found@.len() ==> #[trigger] found@[i] == validity_byte(
                        !is_exactly(grid.samples@[i], missing),
                    )
            },
            None => !(missing matches Some(MissingValue::Exact(_))) || !grid_covers(
                *grid,
                rows as int,
                cols as int,
            ),
        },
{
    match missing {
        Some(MissingValue::Exact(nodata)) => {
            if has_size(grid, rows, cols) {
                Some(nodata_to_validity(&grid.samples, nodata))
            } else {
                None
            }
        },
        _ => None,
    }
}

fn float_validity(grid: &Grid2<bool>) -> (bytes: Vec<u8>)
    ensures
        bytes@.len() == grid.samples@.len(),
        forall|i: int|
            0 <= i < bytes@.len() ==> #[trigger] bytes@[i] == validity_byte(!grid.samples@[i]),
{
    let is_valid = |absent: bool| -> (valid: bool)
        ensures
            valid == !absent,
        { !absent };
    validity_of(&grid.samples, is_valid)
}

/// The valid pixels of a tile of this size; none where the samples are not those that had to
/// be read for it.
pub fn tile_validity(
    samples: &TileSamples,
    read: ValidityRead,
    missing: Option<MissingValue>,
    rows: usize,
    cols: usize,
) -> (bytes: Option<Vec<u8>>)
    requires
        rows * cols <= usize::MAX,
    ensures
        match bytes {
            Some(found) => {
                &&& samples.tells(read, missing, rows as int, cols as int)
                &&& bytes_tell(found@, *samples, missing, rows as int, cols as int)
            },
            None => !samples.tells(read, missing, rows as int, cols as int),
        },
{
    let bytes: Option<Vec<u8>> = match (read, samples) {
        (ValidityRead::Nothing, TileSamples::Nothing) => {
            proof {
                assert(rows * cols == cols * rows) by (nonlinear_arith);
            }
            Some(ValidityMask::filled(cols, rows, 1).bytes)
        },
        (ValidityRead::DatasetMask, TileSamples::Mask(grid)) => {
            if has_size(grid, rows, cols) {
                Some(mask_to_validity(&grid.samples))
            } else {
                None
            }
        },
        (ValidityRead::Alpha { wide: false, .. }, TileSamples::Alpha(grid)) => {
            if has_size(grid, rows, cols) {
                Some(alpha_to_validity(grid))
            } else {
                None
            }
        },
        (ValidityRead::Alpha { wide: true, .. }, TileSamples::WideAlpha(grid)) => {
            if has_size(grid, rows, cols) {
                Some(alpha_u16_to_validity(grid))
            } else {
                None
            }
        },
        (ValidityRead::Colors { wide: false }, TileSamples::Colors(grid)) => {
            if has_colors(grid, rows, cols) {
                Some(black_rgb_u8_to_validity(grid))
            } else {
                None
            }
        },
        (ValidityRead::Colors { wide: true }, TileSamples::WideColors(grid)) => {
            if has_colors(grid, rows, cols) {
                Some(black_rgb_u16_to_validity(grid))
            } else {
                None
            }
        },
        (ValidityRead::Samples(NodataKind::U8), TileSamples::U8(grid)) => {
            exact_validity(grid, missing, rows, cols)
        },
        (ValidityRead::Samples(NodataKind::U16), TileSamples::U16(grid)) => {
            exact_validity(grid, missing, rows, cols)
        },
        (ValidityRead::Samples(NodataKind::U32), TileSamples::U32(grid)) => {
            exact_validity(grid, missing, rows, cols)
        },
        (ValidityRead::Samples(NodataKind::I8), TileSamples::I8(grid)) => {
            exact_validity(grid, missing, rows, cols)
        },
        (ValidityRead::Samples(NodataKind::I16), TileSamples::I16(grid)) => {
            exact_validity(grid, missing, rows, cols)
        },
        (ValidityRead::Samples(NodataKind::I32), TileSamples::I32(grid)) => {
            exact_validity(grid, missing, rows, cols)
        },
        (
            ValidityRead::Samples(NodataKind::F32) | ValidityRead::Samples(NodataKind::F64),
            TileSamples::Float(grid),
        ) => {
            if has_size(grid, rows, cols) {
                Some(float_validity(grid))
            } else {
                None
            }
        },
        _ => None,
    };
    proof {
        if bytes is Some {
            let found = bytes->0@;
            assert forall|r: int, c: int| 0 <= r < rows && 0 <= c < cols implies #[trigger] sample2(
                found,
                cols as int,
                r,
                c,
            ) == validity_byte(pixel_valid(samples.pixel(r, c), missing)) by {
                lemma_cell2(rows as int, cols as int, r, c);
                assert(sample2(found, cols as int, r, c) == found[r * cols + c]);
            }
        }
    }
    bytes
}

/// What is read of a pixel is its sample: that of its row and column, or, of a color image,
/// the first three of its bands.
pub proof fn law_tile_pixels_are_samples(
    bytes: Grid2<u8>,
    wide: Grid2<u16>,
    colors: Grid3<u8>,
    wide_colors: Grid3<u16>,
    flags: Grid2<bool>,
    r: int,
    c: int,
)
    ensures
        TileSamples::Mask(bytes).pixel(r, c) == Pixel::Mask(
            bytes.samples@[r * bytes.cols + c] as int,
        ),
        TileSamples::Alpha(bytes).pixel(r, c) == Pixel::Mask(
            bytes.samples@[r * bytes.cols + c] as int,
        ),
        TileSamples::WideAlpha(wide).pixel(r, c) == Pixel::Mask(
            wide.samples@[r * wide.cols + c] as int,
        ),
        TileSamples::U8(bytes).pixel(r, c) == Pixel::U8(bytes.samples@[r * bytes.cols + c]),
        TileSamples::U16(wide).pixel(r, c) == Pixel::U16(wide.samples@[r * wide.cols + c]),
        TileSamples::Float(flags).pixel(r, c) == Pixel::Float(flags.samples@[r * flags.cols + c]),
        TileSamples::Colors(colors).pixel(r, c) == ({
            let at = (r * colors.cols + c) * colors.bands;
            Pixel::Color(
                colors.samples@[at] as int,
                colors.samples@[at + 1] as int,
                colors.samples@[at + 2] as int,
            )
        }),
        TileSamples::WideColors(wide_colors).pixel(r, c) == ({
            let at = (r * wide_colors.cols + c) * wide_colors.bands;
            Pixel::Color(
                wide_colors.samples@[at] as int,
                wide_colors.samples@[at + 1] as int,
                wide_colors.samples@[at + 2] as int,
            )
        }),
{
}

/// The same of the other kinds of whole samples.
pub proof fn law_tile_pixels_are_whole_samples(
    a: Grid2<u32>,
    b: Grid2<i8>,
    d: Grid2<i16>,
    e: Grid2<i32>,
    r: int,
    c: int,
)
    ensures
        TileSamples::U32(a).pixel(r, c) == Pixel::U32(a.samples@[r * a.cols + c]),
        TileSamples::I8(b).pixel(r, c) == Pixel::I8(b.samples@[r * b.cols + c]),
        TileSamples::I16(d).pixel(r, c) == Pixel::I16(d.samples@[r * d.cols + c]),
        TileSamples::I32(e).pixel(r, c) == Pixel::I32(e.samples@[r * e.cols + c]),
{
}

/// Which pixels are valid: those whose mask or alpha sample is not zero, those that are not
/// black in all of three colors, and those whose sample differs from the value for missing
/// data. Where nothing is read, all are.
pub proof fn law_valid_pixels_differ_from_missing(
    value: int,
    red: int,
    green: int,
    blue: int,
    absent: bool,
    missing: Option<MissingValue>,
)
    ensures
        pixel_valid(Pixel::Nothing, missing),
        pixel_valid(Pixel::Mask(value), missing) <==> value != 0,
        pixel_valid(Pixel::Color(red, green, blue), missing) <==> red != 0 || green != 0 || blue
            != 0,
        pixel_valid(Pixel::Float(absent), missing) <==> !absent,
{
}

/// A sample is valid exactly if it is not the value for missing data of its kind.
pub proof fn law_samples_are_valid_unless_missing(
    a: (u8, u8),
    b: (u16, u16),
    c: (u32, u32),
    d: (i8, i8),
    e: (i16, i16),
    f: (i32, i32),
)
    ensures
        pixel_valid(
            Pixel::U8(a.0),
            Some(MissingValue::Exact(NodataValue::U8(a.1))),
        ) <==> a.0 != a.1,
        pixel_valid(
            Pixel::U16(b.0),
            Some(MissingValue::Exact(NodataValue::U16(b.1))),
        ) <==> b.0 != b.1,
        pixel_valid(
            Pixel::U32(c.0),
            Some(MissingValue::Exact(NodataValue::U32(c.1))),
        ) <==> c.0 != c.1,
        pixel_valid(
            Pixel::I8(d.0),
            Some(MissingValue::Exact(NodataValue::I8(d.1))),
        ) <==> d.0 != d.1,
        pixel_valid(
            Pixel::I16(e.0),
            Some(MissingValue::Exact(NodataValue::I16(e.1))),
        ) <==> e.0 != e.1,
        pixel_valid(
            Pixel::I32(f.0),
            Some(MissingValue::Exact(NodataValue::I32(f.1))),
        ) <==> f.0 != f.1,
{
}

} // verus!
