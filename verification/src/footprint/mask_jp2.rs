//! The valid pixels of a JPEG 2000 image.
use crate::bands::bands_exist;
use crate::cog::grid::{
    law_tiles_partition_raster, tile_count, tile_grid, tile_job_at, tile_jobs, TileJob,
};
use crate::cog::semantics::{alpha_band, associated_alpha_band_index, bands_countable};
use crate::crop::WriteWindow;
use crate::encode::decode::lemma_job_row;
use crate::footprint::mask::{
    alpha_to_validity, alpha_u16_to_validity, assemble_mask, black_rgb_u16_to_validity,
    black_rgb_u8_to_validity, nodata_to_validity, output_dimensions, tile_byte, tile_index,
    validity_byte, window_corner, NodataSample, ValidityMask,
};
use crate::footprint::options::{NodataValue, ResolvedValiditySource};
use crate::input::profile::RasterProfile;
use crate::jp2::decode::{
    all_convertible, component_views, converted_plane, decode_region_components,
    planes_from_components, region_components, Component, ComponentView, Jp2Error, Jp2Sample,
    Region,
};
use crate::jp2::profile::Jp2Raster;
use crate::raster::{build3, lemma_cell2, sample2, sample3, Grid2, Grid3};
use crate::tiff::SampleFormat;
use vstd::prelude::*;

verus! {

/// Why the valid pixels of a tile cannot be told.
#[derive(Debug, Clone, Copy, PartialEq, Eq, Structural)]
pub enum Jp2ValidityError {
    Image(Jp2Error),
    MissingAlphaBand,
    MissingNodata,
}

/// The samples of a band, counted from one, of which there have to be `count`.
pub open spec fn band_plane<T: Jp2Sample>(
    components: Seq<ComponentView>,
    bits: u8,
    band: usize,
    count: nat,
) -> Result<Seq<T>, Jp2Error> {
    if components.len() == 0 {
        Err(Jp2Error::NoComponents)
    } else if band > components.len() {
        Err(Jp2Error::MissingComponent { band })
    } else if !T::convertible(components[band - 1].2, components[band - 1].3, bits) {
        Err(Jp2Error::UnsupportedPrecision)
    } else {
        sized_plane(converted_plane::<T>(components[band - 1], bits), count)
    }
}

/// Samples, of which there have to be `count`.
pub open spec fn sized_plane<T>(samples: Seq<T>, count: nat) -> Result<Seq<T>, Jp2Error> {
    if samples.len() != count {
        Err(Jp2Error::SizeMismatch { expected: count as usize, found: samples.len() as usize })
    } else {
        Ok(samples)
    }
}

/// Checks that a plane has a sample for each pixel of a tile.
pub fn plane_to_array2<T: Copy>(plane: &Vec<T>, rows: usize, cols: usize) -> (result: Result<
    Grid2<T>,
    Jp2Error,
>)
    requires
        rows * cols <= usize::MAX,
    ensures
        match sized_plane(plane@, (rows * cols) as nat) {
            Ok(samples) => {
                &&& result matches Ok(grid) && grid.rows == rows && grid.cols == cols
                    && grid.samples@ == samples && grid.well_formed()
            },
            Err(error) => result matches Err(found) && found == error,
        },
{
    let expected: usize = rows * cols;
    let found: usize = plane.len();
    if found != expected {
        return Err(Jp2Error::SizeMismatch { expected, found });
    }
    let mut samples: Vec<T> = Vec::new();
    let mut i: usize = 0;
    while i < plane.len()
        invariant
            i <= plane@.len(),
            samples@ == plane@.take(i as int),
        decreases plane@.len() - i,
    {
        samples.push(plane[i]);
        i = i + 1;
        assert(samples@ =~= plane@.take(i as int));
    }
    assert(plane@.take(i as int) =~= plane@);
    Ok(Grid2 { rows, cols, samples })
}

fn single_band<T: Jp2Sample>(
    components: &Vec<Component>,
    bits: u8,
    band: usize,
    rows: usize,
    cols: usize,
) -> (result: Result<Grid2<T>, Jp2Error>)
    requires
        band >= 1,
        rows * cols <= usize::MAX,
    ensures
        match band_plane::<T>(component_views(components@), bits, band, (rows * cols) as nat) {
            Ok(samples) => {
                &&& result matches Ok(grid) && grid.rows == rows && grid.cols == cols
                    && grid.samples@ == samples && grid.well_formed()
            },
            Err(error) => result matches Err(found) && found == error,
        },
{
    let mut bands: Vec<usize> = Vec::new();
    bands.push(band);
    let ghost wanted = bands@;
    assert(wanted[0] == band);
    match planes_from_components::<T>(components, bits, Some(bands.as_slice())) {
        Err(error) => {
            proof {
                lemma_one_convertible::<T>(component_views(components@), bits, band);
                assert(wanted =~= seq![band]);
            }
            Err(error)
        },
        Ok(planes) => {
            proof {
                lemma_one_convertible::<T>(component_views(components@), bits, band);
                assert(wanted =~= seq![band]);
                assert(wanted[0] <= components@.len());
            }
            assert(planes.planes@[0]@ == converted_plane::<T>(
                component_views(components@)[band - 1],
                bits,
            ));
            plane_to_array2(&planes.planes[0], rows, cols)
        },
    }
}

proof fn lemma_one_convertible<T: Jp2Sample>(
    components: Seq<ComponentView>,
    bits: u8,
    band: usize,
)
    requires
        band >= 1,
    ensures
        all_convertible::<T>(components, bits, seq![band]) == (band <= components.len()
            ==> T::convertible(components[band - 1].2, components[band - 1].3, bits)),
{
    let wanted = seq![band];
    assert(wanted[0] == band);
    assert(wanted.take(1) =~= wanted);
    if all_convertible::<T>(components, bits, wanted) && band <= components.len() {
        assert(bands_exist(wanted.take(0int + 1), components.len()));
        assert(T::convertible(components[wanted[0] - 1].2, components[wanted[0] - 1].3, bits));
    }
    if band > components.len() {
        assert forall|i: int|
            0 <= i < wanted.len() && bands_exist(
                wanted.take(i + 1),
                components.len(),
            ) implies T::convertible(
            components[#[trigger] wanted[i] - 1].2,
            components[wanted[i] - 1].3,
            bits,
        ) by {
            assert(wanted.take(i + 1)[0] == band);
        }
    }
}

/// Whether those of the first three components that there are convert.
pub open spec fn colors_convertible<T: Jp2Sample>(
    components: Seq<ComponentView>,
    bits: u8,
) -> bool {
    forall|i: int|
        0 <= i < components.len() && i < 3 ==> T::convertible(
            (#[trigger] components[i]).2,
            components[i].3,
            bits,
        )
}

proof fn lemma_colors_convertible<T: Jp2Sample>(components: Seq<ComponentView>, bits: u8)
    ensures
        all_convertible::<T>(components, bits, seq![1usize, 2usize, 3usize])
            == colors_convertible::<T>(components, bits),
{
    let wanted = seq![1usize, 2usize, 3usize];
    assert forall|i: int| 0 <= i < 3 implies #[trigger] wanted[i] == i + 1 && (bands_exist(
        wanted.take(i + 1),
        components.len(),
    ) <==> i < components.len()) by {
        if i < components.len() {
            assert forall|j: int| 0 <= j < i + 1 implies (#[trigger] wanted.take(i + 1)[j])
                <= components.len() by {
                assert(wanted.take(i + 1)[j] == wanted[j]);
            }
        } else {
            assert(wanted.take(i + 1)[i] == wanted[i]);
        }
    }
    if all_convertible::<T>(components, bits, wanted) {
        assert forall|i: int| 0 <= i < components.len() && i < 3 implies T::convertible(
            (#[trigger] components[i]).2,
            components[i].3,
            bits,
        ) by {
            assert(wanted[i] == i + 1);
        }
    }
}

/// The first three bands, each of which has to have `count` samples.
pub open spec fn color_planes<T: Jp2Sample>(
    components: Seq<ComponentView>,
    bits: u8,
    count: nat,
) -> Result<(Seq<T>, Seq<T>, Seq<T>), Jp2Error> {
    if !colors_convertible::<T>(components, bits) {
        Err(Jp2Error::UnsupportedPrecision)
    } else if components.len() == 0 {
        Err(Jp2Error::NoComponents)
    } else if components.len() < 3 {
        Err(Jp2Error::MissingComponent { band: (components.len() + 1) as usize })
    } else {
        match (
            sized_plane(converted_plane::<T>(components[0], bits), count),
            sized_plane(converted_plane::<T>(components[1], bits), count),
            sized_plane(converted_plane::<T>(components[2], bits), count),
        ) {
            (Err(error), _, _) => Err(error),
            (_, Err(error), _) => Err(error),
            (_, _, Err(error)) => Err(error),
            (Ok(first), Ok(second), Ok(third)) => Ok((first, second, third)),
        }
    }
}

fn color_bands<T: Jp2Sample>(
    components: &Vec<Component>,
    bits: u8,
    rows: usize,
    cols: usize,
) -> (result: Result<Grid3<T>, Jp2Error>)
    requires
        rows * cols <= usize::MAX,
        rows * cols * 3 <= usize::MAX,
    ensures
        match color_planes::<T>(component_views(components@), bits, (rows * cols) as nat) {
            Ok(colors) => {
                &&& result matches Ok(grid) && grid.rows == rows && grid.cols == cols && grid.bands
                    == 3 && grid.well_formed() && forall|r: int, c: int|
                    0 <= r < rows && 0 <= c < cols ==> #[trigger] grid.at(r, c, 0) == sample2(
                        colors.0,
                        cols as int,
                        r,
                        c,
                    ) && grid.at(r, c, 1) == sample2(colors.1, cols as int, r, c) && grid.at(
                        r,
                        c,
                        2,
                    ) == sample2(colors.2, cols as int, r, c)
            },
            Err(error) => result matches Err(found) && found == error,
        },
{
    let mut bands: Vec<usize> = Vec::new();
    bands.push(1);
    bands.push(2);
    bands.push(3);
    let ghost wanted = bands@;
    assert(wanted =~= seq![1usize, 2usize, 3usize]);
    let ghost views = component_views(components@);
    let component_count: usize = components.len();
    proof {
        lemma_colors_convertible::<T>(views, bits);
    }
    match planes_from_components::<T>(components, bits, Some(bands.as_slice())) {
        Err(error) => {
            proof {
                if colors_convertible::<T>(views, bits) && views.len() > 0 {
                    lemma_first_of_three(wanted, views.len(), error->MissingComponent_band);
                }
            }
            Err(error)
        },
        Ok(planes) => {
            proof {
                assert(wanted[0] == 1 && wanted[1] == 2 && wanted[2] == 3);
                assert(wanted[2] <= views.len());
                assert(planes.planes@[0]@ == converted_plane::<T>(views[0], bits));
                assert(planes.planes@[1]@ == converted_plane::<T>(views[1], bits));
                assert(planes.planes@[2]@ == converted_plane::<T>(views[2], bits));
            }
            let first: Grid2<T> = match plane_to_array2(&planes.planes[0], rows, cols) {
                Ok(grid) => grid,
                Err(error) => {
                    return Err(error);
                },
            };
            let second: Grid2<T> = match plane_to_array2(&planes.planes[1], rows, cols) {
                Ok(grid) => grid,
                Err(error) => {
                    return Err(error);
                },
            };
            let third: Grid2<T> = match plane_to_array2(&planes.planes[2], rows, cols) {
                Ok(grid) => grid,
                Err(error) => {
                    return Err(error);
                },
            };
            let pick = |r: usize, c: usize, b: usize| -> (value: T)
                requires
                    r < rows,
                    c < cols,
                    b < 3,
                ensures
                    value == (if b == 0 {
                        first.at(r as int, c as int)
                    } else if b == 1 {
                        second.at(r as int, c as int)
                    } else {
                        third.at(r as int, c as int)
                    }),
                {
                    if b == 0 {
                        first.get(r, c)
                    } else if b == 1 {
                        second.get(r, c)
                    } else {
                        third.get(r, c)
                    }
                };
            let samples: Vec<T> = build3(rows, cols, 3, pick);
            let grid = Grid3 { rows, cols, bands: 3, samples };
            proof {
                assert forall|r: int, c: int| 0 <= r < rows && 0 <= c < cols implies #[trigger] grid.at(
                    r,
                    c,
                    0,
                ) == first.at(r, c) && grid.at(r, c, 1) == second.at(r, c) && grid.at(r, c, 2)
                    == third.at(r, c) by {
                    assert(sample3(grid.samples@, cols as int, 3, r, c, 0) == first.at(r, c));
                    assert(sample3(grid.samples@, cols as int, 3, r, c, 1) == second.at(r, c));
                    assert(sample3(grid.samples@, cols as int, 3, r, c, 2) == third.at(r, c));
                }
            }
            Ok(grid)
        },
    }
}

proof fn lemma_first_of_three(wanted: Seq<usize>, available: nat, band: usize)
    requires
        wanted == seq![1usize, 2usize, 3usize],
        available > 0,
        crate::bands::first_missing(wanted, available, band),
    ensures
        band == available + 1,
        available < 3,
{
    let i = choose|i: int|
        0 <= i < wanted.len() && band == #[trigger] wanted[i] && band > available
            && crate::bands::bands_exist(wanted.take(i), available);
    assert(band == wanted[i] && crate::bands::bands_exist(wanted.take(i), available));
    if i == 2 {
        assert(wanted.take(i)[1] == 2);
        assert(wanted.take(i)[1] <= available);
    } else if i == 1 {
        assert(wanted.take(i)[0] == 1);
    }
}

/// What a pixel's colors say: it is valid where they are not all zero.
pub open spec fn not_black<T>(colors: (Seq<T>, Seq<T>, Seq<T>), zero: T, at: int) -> bool {
    !(colors.0[at] == zero && colors.1[at] == zero && colors.2[at] == zero)
}

/// The validity of the pixels of a tile, told by the components of its region.
pub open spec fn tile_validity(
    components: Seq<ComponentView>,
    raster: Jp2Raster,
    profile: RasterProfile,
    source: ResolvedValiditySource,
    nodata: Option<NodataValue>,
    count: nat,
) -> Result<Seq<u8>, Jp2ValidityError> {
    let bits = raster.bits_per_sample;
    match source {
        ResolvedValiditySource::AssociatedAlpha => match alpha_band(profile) {
            None => Err(Jp2ValidityError::MissingAlphaBand),
            Some(band) => if bits <= 8 {
                told(
                    band_plane::<u8>(components, bits, band as usize, count),
                    |value: u8| value > 0,
                )
            } else {
                told(
                    band_plane::<u16>(components, bits, band as usize, count),
                    |value: u16| value > 0,
                )
            },
        },
        ResolvedValiditySource::BlackRgb => if bits <= 8 {
            match color_planes::<u8>(components, bits, count) {
                Err(error) => Err(Jp2ValidityError::Image(error)),
                Ok(colors) => Ok(
                    Seq::new(count, |i: int| validity_byte(not_black(colors, 0u8, i))),
                ),
            }
        } else {
            match color_planes::<u16>(components, bits, count) {
                Err(error) => Err(Jp2ValidityError::Image(error)),
                Ok(colors) => Ok(
                    Seq::new(count, |i: int| validity_byte(not_black(colors, 0u16, i))),
                ),
            }
        },
        ResolvedValiditySource::Nodata => match nodata {
            None => Err(Jp2ValidityError::MissingNodata),
            Some(value) => nodata_validity(components, raster, value, count),
        },
        ResolvedValiditySource::DatasetMask => told(
            band_plane::<u8>(components, bits, 1, count),
            |value: u8| value > 0,
        ),
        ResolvedValiditySource::Full => Ok(Seq::new(count, |i: int| 1u8)),
    }
}

/// The validity of samples where `valid` tells it.
pub open spec fn told<T>(plane: Result<Seq<T>, Jp2Error>, valid: spec_fn(T) -> bool) -> Result<
    Seq<u8>,
    Jp2ValidityError,
> {
    match plane {
        Err(error) => Err(Jp2ValidityError::Image(error)),
        Ok(samples) => Ok(samples.map_values(|value: T| validity_byte(valid(value)))),
    }
}

/// The validity of the first band, told by a value for missing data: for unsigned samples
/// of 8 and 16 bits and signed ones of 16 bits; samples of other kinds are valid.
pub open spec fn nodata_validity(
    components: Seq<ComponentView>,
    raster: Jp2Raster,
    nodata: NodataValue,
    count: nat,
) -> Result<Seq<u8>, Jp2ValidityError> {
    let bits = raster.bits_per_sample;
    if raster.sample_format == SampleFormat::Uint && bits == 8 {
        told(band_plane::<u8>(components, bits, 1, count), |value: u8| !value.is_missing(nodata))
    } else if raster.sample_format == SampleFormat::Uint && bits == 16 {
        told(band_plane::<u16>(components, bits, 1, count), |value: u16| !value.is_missing(nodata))
    } else if raster.sample_format == SampleFormat::Int && bits == 16 {
        told(band_plane::<i16>(components, bits, 1, count), |value: i16| !value.is_missing(nodata))
    } else {
        Ok(Seq::new(count, |i: int| 1u8))
    }
}

/// Whether `result` is what was expected.
pub open spec fn is_told(
    result: Result<Vec<u8>, Jp2ValidityError>,
    expected: Result<Seq<u8>, Jp2ValidityError>,
) -> bool {
    match expected {
        Ok(bytes) => result matches Ok(found) && found@ == bytes,
        Err(error) => result matches Err(found) && found == error,
    }
}

fn all_valid(count: usize) -> (bytes: Vec<u8>)
    ensures
        bytes@ == Seq::new(count as nat, |i: int| 1u8),
{
    let mut bytes: Vec<u8> = Vec::new();
    let mut i: usize = 0;
    while i < count
        invariant
            i <= count,
            bytes@.len() == i,
            forall|j: int| 0 <= j < i ==> #[trigger] bytes@[j] == 1,
        decreases count - i,
    {
        bytes.push(1);
        i = i + 1;
    }
    assert(bytes@ =~= Seq::new(count as nat, |j: int| 1u8));
    bytes
}

/// The validity of a tile whose first three bands tell it.
pub fn decode_black_rgb_tile(
    components: &Vec<Component>,
    raster: &Jp2Raster,
    rows: usize,
    cols: usize,
) -> (result: Result<Vec<u8>, Jp2ValidityError>)
    requires
        rows * cols * 3 <= usize::MAX,
    ensures
        is_told(
            result,
            if raster.bits_per_sample <= 8 {
                match color_planes::<u8>(
                    component_views(components@),
                    raster.bits_per_sample,
                    (rows * cols) as nat,
                ) {
                    Err(error) => Err(Jp2ValidityError::Image(error)),
                    Ok(colors) => Ok(
                        Seq::new(
                            (rows * cols) as nat,
                            |i: int| validity_byte(not_black(colors, 0u8, i)),
                        ),
                    ),
                }
            } else {
                match color_planes::<u16>(
                    component_views(components@),
                    raster.bits_per_sample,
                    (rows * cols) as nat,
                ) {
                    Err(error) => Err(Jp2ValidityError::Image(error)),
                    Ok(colors) => Ok(
                        Seq::new(
                            (rows * cols) as nat,
                            |i: int| validity_byte(not_black(colors, 0u16, i)),
                        ),
                    ),
                }
            },
        ),
{
    proof {
        assert(0 <= rows * cols) by (nonlinear_arith);
    }
    if raster.bits_per_sample <= 8 {
        match color_bands::<u8>(components, raster.bits_per_sample, rows, cols) {
            Err(error) => Err(Jp2ValidityError::Image(error)),
            Ok(grid) => {
                let bytes: Vec<u8> = black_rgb_u8_to_validity(&grid);
                proof {
                    let colors = color_planes::<u8>(
                        component_views(components@),
                        raster.bits_per_sample,
                        (rows * cols) as nat,
                    )->Ok_0;
                    assert forall|i: int| 0 <= i < rows * cols implies #[trigger] bytes@[i]
                        == validity_byte(not_black(colors, 0u8, i)) by {
                        lemma_pixel(rows as int, cols as int, i);
                        let r = i / cols as int;
                        let c = i % cols as int;
                        assert(sample2(bytes@, cols as int, r, c) == bytes@[i]);
                        assert(grid.at(r, c, 0) == colors.0[i]);
                    }
                    assert(bytes@ =~= Seq::new(
                        (rows * cols) as nat,
                        |i: int| validity_byte(not_black(colors, 0u8, i)),
                    ));
                }
                Ok(bytes)
            },
        }
    } else {
        match color_bands::<u16>(components, raster.bits_per_sample, rows, cols) {
            Err(error) => Err(Jp2ValidityError::Image(error)),
            Ok(grid) => {
                let bytes: Vec<u8> = black_rgb_u16_to_validity(&grid);
                proof {
                    let colors = color_planes::<u16>(
                        component_views(components@),
                        raster.bits_per_sample,
                        (rows * cols) as nat,
                    )->Ok_0;
                    assert forall|i: int| 0 <= i < rows * cols implies #[trigger] bytes@[i]
                        == validity_byte(not_black(colors, 0u16, i)) by {
                        lemma_pixel(rows as int, cols as int, i);
                        let r = i / cols as int;
                        let c = i % cols as int;
                        assert(sample2(bytes@, cols as int, r, c) == bytes@[i]);
                        assert(grid.at(r, c, 0) == colors.0[i]);
                    }
                    assert(bytes@ =~= Seq::new(
                        (rows * cols) as nat,
                        |i: int| validity_byte(not_black(colors, 0u16, i)),
                    ));
                }
                Ok(bytes)
            },
        }
    }
}

proof fn lemma_pixel(rows: int, cols: int, i: int)
    requires
        0 <= rows,
        0 <= cols,
        0 <= i < rows * cols,
    ensures
        0 <= i / cols < rows,
        0 <= i % cols < cols,
        i / cols * cols + i % cols == i,
{
    crate::arith::lemma_grid_split(i, cols, rows);
}

/// The validity of a tile where a value for missing data tells it.
pub fn decode_nodata_tile(
    components: &Vec<Component>,
    raster: &Jp2Raster,
    nodata: NodataValue,
    rows: usize,
    cols: usize,
) -> (result: Result<Vec<u8>, Jp2ValidityError>)
    requires
        rows * cols <= usize::MAX,
    ensures
        is_told(
            result,
            nodata_validity(component_views(components@), *raster, nodata, (rows * cols) as nat),
        ),
{
    let bits: u8 = raster.bits_per_sample;
    match (raster.sample_format, bits) {
        (SampleFormat::Uint, 8) => match single_band::<u8>(components, bits, 1, rows, cols) {
            Err(error) => Err(Jp2ValidityError::Image(error)),
            Ok(grid) => {
                let bytes: Vec<u8> = nodata_to_validity(&grid.samples, nodata);
                assert(bytes@ =~= told(
                    Ok(grid.samples@),
                    |value: u8| !value.is_missing(nodata),
                )->Ok_0);
                Ok(bytes)
            },
        },
        (SampleFormat::Uint, 16) => match single_band::<u16>(components, bits, 1, rows, cols) {
            Err(error) => Err(Jp2ValidityError::Image(error)),
            Ok(grid) => {
                let bytes: Vec<u8> = nodata_to_validity(&grid.samples, nodata);
                assert(bytes@ =~= told(
                    Ok(grid.samples@),
                    |value: u16| !value.is_missing(nodata),
                )->Ok_0);
                Ok(bytes)
            },
        },
        (SampleFormat::Int, 16) => match single_band::<i16>(components, bits, 1, rows, cols) {
            Err(error) => Err(Jp2ValidityError::Image(error)),
            Ok(grid) => {
                let bytes: Vec<u8> = nodata_to_validity(&grid.samples, nodata);
                assert(bytes@ =~= told(
                    Ok(grid.samples@),
                    |value: i16| !value.is_missing(nodata),
                )->Ok_0);
                Ok(bytes)
            },
        },
        _ => Ok(all_valid(rows * cols)),
    }
}

/// The validity of a tile whose first band is a mask.
pub fn decode_jp2_bitmask_tile(
    components: &Vec<Component>,
    raster: &Jp2Raster,
    rows: usize,
    cols: usize,
) -> (result: Result<Vec<u8>, Jp2ValidityError>)
    requires
        rows * cols <= usize::MAX,
    ensures
        is_told(
            result,
            told(
                band_plane::<u8>(
                    component_views(components@),
                    raster.bits_per_sample,
                    1,
                    (rows * cols) as nat,
                ),
                |value: u8| value > 0,
            ),
        ),
{
    match single_band::<u8>(components, raster.bits_per_sample, 1, rows, cols) {
        Err(error) => Err(Jp2ValidityError::Image(error)),
        Ok(grid) => {
            let bytes: Vec<u8> = alpha_to_validity(&grid);
            assert(bytes@ =~= told(Ok(grid.samples@), |value: u8| value > 0)->Ok_0);
            Ok(bytes)
        },
    }
}

/// The validity of the pixels of a tile, told by the components of its region.
pub fn validity_of_components(
    components: &Vec<Component>,
    raster: &Jp2Raster,
    profile: &RasterProfile,
    source: ResolvedValiditySource,
    nodata: Option<NodataValue>,
    rows: usize,
    cols: usize,
) -> (result: Result<Vec<u8>, Jp2ValidityError>)
    requires
        bands_countable(*profile),
        rows * cols * 3 <= usize::MAX,
    ensures
        is_told(
            result,
            tile_validity(
                component_views(components@),
                *raster,
                *profile,
                source,
                nodata,
                (rows * cols) as nat,
            ),
        ),
{
    proof {
        assert(0 <= rows * cols) by (nonlinear_arith);
    }
    match source {
        ResolvedValiditySource::AssociatedAlpha => {
            let band: usize = match associated_alpha_band_index(profile) {
                Some(band) => band,
                None => {
                    return Err(Jp2ValidityError::MissingAlphaBand);
                },
            };
            if raster.bits_per_sample <= 8 {
                match single_band::<u8>(components, raster.bits_per_sample, band, rows, cols) {
                    Err(error) => Err(Jp2ValidityError::Image(error)),
                    Ok(grid) => {
                        let bytes: Vec<u8> = alpha_to_validity(&grid);
                        assert(bytes@ =~= told(Ok(grid.samples@), |value: u8| value > 0)->Ok_0);
                        Ok(bytes)
                    },
                }
            } else {
                match single_band::<u16>(components, raster.bits_per_sample, band, rows, cols) {
                    Err(error) => Err(Jp2ValidityError::Image(error)),
                    Ok(grid) => {
                        let bytes: Vec<u8> = alpha_u16_to_validity(&grid);
                        assert(bytes@ =~= told(Ok(grid.samples@), |value: u16| value > 0)->Ok_0);
                        Ok(bytes)
                    },
                }
            }
        },
        ResolvedValiditySource::BlackRgb => decode_black_rgb_tile(components, raster, rows, cols),
        ResolvedValiditySource::Nodata => match nodata {
            None => Err(Jp2ValidityError::MissingNodata),
            Some(value) => decode_nodata_tile(components, raster, value, rows, cols),
        },
        ResolvedValiditySource::DatasetMask => decode_jp2_bitmask_tile(
            components,
            raster,
            rows,
            cols,
        ),
        ResolvedValiditySource::Full => Ok(all_valid(rows * cols)),
    }
}

/// The region of the image that a tile of the window stands for.
pub open spec fn tile_region(window: Option<WriteWindow>, job: TileJob) -> Region {
    let corner = window_corner(window);
    Region {
        x0: (corner.0 + job.col_off) as u32,
        y0: (corner.1 + job.row_off) as u32,
        x1: (corner.0 + job.col_off + job.cols) as u32,
        y1: (corner.1 + job.row_off + job.rows) as u32,
    }
}

/// Decodes the region of a tile and tells its valid pixels.
pub fn read_validity_tile_jp2(
    data: &[u8],
    raster: &Jp2Raster,
    profile: &RasterProfile,
    source: ResolvedValiditySource,
    window: Option<WriteWindow>,
    nodata: Option<NodataValue>,
    job: &TileJob,
) -> (result: Result<Vec<u8>, Jp2ValidityError>)
    requires
        bands_countable(*profile),
        job.rows * job.cols * 3 <= usize::MAX,
        window_corner(window).0 + job.col_off + job.cols <= u32::MAX,
        window_corner(window).1 + job.row_off + job.rows <= u32::MAX,
    ensures
        is_told(
            result,
            match region_components(data@, tile_region(window, *job)) {
                Err(error) => Err(Jp2ValidityError::Image(error)),
                Ok(components) => tile_validity(
                    components,
                    *raster,
                    *profile,
                    source,
                    nodata,
                    (job.rows * job.cols) as nat,
                ),
            },
        ),
{
    let (x_off, y_off): (u32, u32) = match window {
        Some(win) => (win.col_off as u32, win.row_off as u32),
        None => (0, 0),
    };
    let region = Region {
        x0: x_off + job.col_off as u32,
        y0: y_off + job.row_off as u32,
        x1: x_off + job.col_off as u32 + job.cols as u32,
        y1: y_off + job.row_off as u32 + job.rows as u32,
    };
    match decode_region_components(data, &region) {
        Err(error) => Err(Jp2ValidityError::Image(error)),
        Ok(components) => validity_of_components(
            &components,
            raster,
            profile,
            source,
            nodata,
            job.rows,
            job.cols,
        ),
    }
}

/// What telling the valid pixels of a tile gives.
pub open spec fn told_tile(
    data: Seq<u8>,
    raster: Jp2Raster,
    profile: RasterProfile,
    source: ResolvedValiditySource,
    window: Option<WriteWindow>,
    nodata: Option<NodataValue>,
    job: TileJob,
) -> Result<Seq<u8>, Jp2ValidityError> {
    match region_components(data, tile_region(window, job)) {
        Err(error) => Err(Jp2ValidityError::Image(error)),
        Ok(components) => tile_validity(
            components,
            raster,
            profile,
            source,
            nodata,
            (job.rows * job.cols) as nat,
        ),
    }
}

/// Whether the first tiles are those of the first jobs.
pub open spec fn tiles_told(
    data: Seq<u8>,
    raster: Jp2Raster,
    profile: RasterProfile,
    source: ResolvedValiditySource,
    window: Option<WriteWindow>,
    nodata: Option<NodataValue>,
    jobs: Seq<TileJob>,
    tiles: Seq<Vec<u8>>,
) -> bool {
    &&& tiles.len() <= jobs.len()
    &&& forall|i: int|
        0 <= i < tiles.len() ==> told_tile(data, raster, profile, source, window, nodata, jobs[i])
            == Ok::<Seq<u8>, Jp2ValidityError>((#[trigger] tiles[i])@)
}

/// Whether `error` is that of the first tile whose valid pixels cannot be told.
pub open spec fn first_tile_error(
    data: Seq<u8>,
    raster: Jp2Raster,
    profile: RasterProfile,
    source: ResolvedValiditySource,
    window: Option<WriteWindow>,
    nodata: Option<NodataValue>,
    jobs: Seq<TileJob>,
    error: Jp2ValidityError,
) -> bool {
    exists|tiles: Seq<Vec<u8>>| #[trigger]
        tiles_told(data, raster, profile, source, window, nodata, jobs, tiles) && tiles.len()
            < jobs.len() && told_tile(
            data,
            raster,
            profile,
            source,
            window,
            nodata,
            jobs[tiles.len() as int],
        ) == Err::<Seq<u8>, Jp2ValidityError>(error)
}

/// Whether a mask is put together from the tiles of the image.
pub open spec fn is_told_mask(
    data: Seq<u8>,
    raster: Jp2Raster,
    profile: RasterProfile,
    source: ResolvedValiditySource,
    window: Option<WriteWindow>,
    nodata: Option<NodataValue>,
    width: nat,
    height: nat,
    tile_size: nat,
    mask: ValidityMask,
) -> bool {
    exists|tiles: Seq<Vec<u8>>| #[trigger]
        tiles_told(
            data,
            raster,
            profile,
            source,
            window,
            nodata,
            tile_grid(width, height, tile_size),
            tiles,
        ) && tiles.len() == tile_count(width, height, tile_size) && forall|r: int, c: int|
            mask.has(r, c) ==> #[trigger] mask.at(r, c) == tile_byte(
                width,
                height,
                tile_size,
                tiles,
                r,
                c,
            )
}

/// The valid pixels of an image or of a window of it, told tile by tile. The first tile
/// for which that is not possible is the error.
pub fn build_validity_mask_jp2(
    data: &[u8],
    raster: &Jp2Raster,
    profile: &RasterProfile,
    source: ResolvedValiditySource,
    window: Option<WriteWindow>,
    nodata: Option<NodataValue>,
    tile_size: u32,
) -> (result: Result<ValidityMask, Jp2ValidityError>)
    requires
        tile_size > 0,
        bands_countable(*profile),
        window matches Some(win) ==> win.col_off + win.width <= u32::MAX && win.row_off + win.height
            <= u32::MAX && win.width * win.height * 3 <= usize::MAX && tile_count(
            win.width as nat,
            win.height as nat,
            tile_size as nat,
        ) <= usize::MAX,
        window is None ==> profile.width * profile.height * 3 <= usize::MAX && tile_count(
            profile.width as nat,
            profile.height as nat,
            tile_size as nat,
        ) <= usize::MAX,
    ensures
        ({
            let width = match window {
                Some(win) => win.width as nat,
                None => profile.width as nat,
            };
            let height = match window {
                Some(win) => win.height as nat,
                None => profile.height as nat,
            };
            match result {
                Ok(mask) => {
                    &&& mask.well_formed()
                    &&& mask.width == width
                    &&& mask.height == height
                    &&& forall|i: int|
                        0 <= i < mask.content().len() ==> #[trigger] mask.content()[i] <= 1
                    &&& if source == ResolvedValiditySource::Full {
                        mask.content() == Seq::new((width * height) as nat, |i: int| 1u8)
                    } else {
                        is_told_mask(
                            data@,
                            *raster,
                            *profile,
                            source,
                            window,
                            nodata,
                            width,
                            height,
                            tile_size as nat,
                            mask,
                        )
                    }
                },
                Err(error) => source != ResolvedValiditySource::Full && first_tile_error(
                    data@,
                    *raster,
                    *profile,
                    source,
                    window,
                    nodata,
                    tile_grid(width, height, tile_size as nat),
                    error,
                ),
            }
        }),
{
    let (full_width, full_height): (usize, usize) = output_dimensions(profile, window);
    proof {
        assert(0 <= full_width * full_height) by (nonlinear_arith);
    }
    if source == ResolvedValiditySource::Full {
        return Ok(ValidityMask::filled(full_width, full_height, 1));
    }
    let width: u32 = full_width as u32;
    let height: u32 = full_height as u32;
    let jobs: Vec<TileJob> = tile_jobs(width, height, tile_size);
    let mut tiles: Vec<Vec<u8>> = Vec::new();
    let mut i: usize = 0;
    while i < jobs.len()
        invariant
            i <= jobs@.len(),
            tile_size > 0,
            source != ResolvedValiditySource::Full,
            width == (match window {
                Some(win) => win.width as nat,
                None => profile.width as nat,
            }),
            height == (match window {
                Some(win) => win.height as nat,
                None => profile.height as nat,
            }),
            width * height * 3 <= usize::MAX,
            window_corner(window).0 + width <= u32::MAX,
            window_corner(window).1 + height <= u32::MAX,
            bands_countable(*profile),
            jobs@ == tile_grid(width as nat, height as nat, tile_size as nat),
            jobs@.len() == tile_count(width as nat, height as nat, tile_size as nat),
            tiles@.len() == i,
            tiles_told(data@, *raster, *profile, source, window, nodata, jobs@, tiles@),
        decreases jobs@.len() - i,
    {
        proof {
            let job = jobs@[i as int];
            lemma_job_row(width as nat, height as nat, tile_size as nat, i as int);
            crate::arith::lemma_mul_bound(
                job.rows as int,
                job.cols as int,
                height as int,
                width as int,
            );
            assert(height * width == width * height) by (nonlinear_arith);
        }
        match read_validity_tile_jp2(data, raster, profile, source, window, nodata, &jobs[i]) {
            Err(error) => {
                assert(tiles_told(
                    data@,
                    *raster,
                    *profile,
                    source,
                    window,
                    nodata,
                    jobs@,
                    tiles@,
                ));
                return Err(error);
            },
            Ok(tile) => {
                let ghost before = tiles@;
                tiles.push(tile);
                assert(forall|j: int| 0 <= j < i ==> tiles@[j] == #[trigger] before[j]);
            },
        }
        i = i + 1;
    }
    proof {
        assert forall|j: int| 0 <= j < tiles@.len() implies (#[trigger] tiles@[j])@.len()
            == tile_job_at(width as nat, height as nat, tile_size as nat, j).rows * tile_job_at(
            width as nat,
            height as nat,
            tile_size as nat,
            j,
        ).cols by {
            lemma_told_len(data@, *raster, *profile, source, window, nodata, jobs@[j]);
        }
    }
    let mask: ValidityMask = assemble_mask(width, height, tile_size, &tiles);
    proof {
        let w = width as nat;
        let h = height as nat;
        let t = tile_size as nat;
        assert forall|r: int, c: int| mask.has(r, c) implies #[trigger] mask.at(r, c) <= 1 by {
            law_tiles_partition_raster(w, h, t, c, r);
            let index = tile_index(w, t, r, c);
            let job = tile_job_at(w, h, t, index);
            assert(tile_grid(w, h, t)[index].covers(c, r));
            assert(told_tile(data@, *raster, *profile, source, window, nodata, jobs@[index])
                == Ok::<Seq<u8>, Jp2ValidityError>(tiles@[index]@));
            lemma_told_len(data@, *raster, *profile, source, window, nodata, jobs@[index]);
            lemma_cell2(job.rows as int, job.cols as int, r - job.row_off, c - job.col_off);
        }
        mask.lemma_told();
    }
    Ok(mask)
}

proof fn lemma_told_len(
    data: Seq<u8>,
    raster: Jp2Raster,
    profile: RasterProfile,
    source: ResolvedValiditySource,
    window: Option<WriteWindow>,
    nodata: Option<NodataValue>,
    job: TileJob,
)
    ensures
        told_tile(data, raster, profile, source, window, nodata, job) matches Ok(bytes)
            ==> bytes.len() == job.rows * job.cols && forall|i: int|
            0 <= i < bytes.len() ==> #[trigger] bytes[i] <= 1,
{
    assert(0 <= job.rows * job.cols) by (nonlinear_arith);
}

/// The region of a tile holds the pixels of the image that lie as far from the corner of the
/// window as the tile's pixels do from that of the mask, and no others.
pub proof fn law_tile_region_shows_window(
    window: Option<WriteWindow>,
    job: TileJob,
    x: int,
    y: int,
)
    requires
        window matches Some(win) ==> win.col_off + job.col_off + job.cols <= u32::MAX
            && win.row_off + job.row_off + job.rows <= u32::MAX,
        job.col_off + job.cols <= u32::MAX,
        job.row_off + job.rows <= u32::MAX,
    ensures
        ({
            let region = tile_region(window, job);
            let (left, top) = match window {
                Some(win) => (win.col_off as int, win.row_off as int),
                None => (0int, 0int),
            };
            &&& region.covers(left + x, top + y) <==> job.covers(x, y)
            &&& region.x1 - region.x0 == job.cols
            &&& region.y1 - region.y0 == job.rows
        }),
{
}

/// A pixel of a tile is valid where its samples say so: those of the alpha band, of the mask
/// in the first component, or of the three colors, if they are not zero. There is a byte for
/// each pixel, one where it is valid and zero where it is not.
pub proof fn law_components_tell_valid_pixels(
    components: Seq<ComponentView>,
    raster: Jp2Raster,
    profile: RasterProfile,
    source: ResolvedValiditySource,
    nodata: Option<NodataValue>,
    count: nat,
    bytes: Seq<u8>,
    i: int,
)
    requires
        tile_validity(components, raster, profile, source, nodata, count) == Ok::<
            Seq<u8>,
            Jp2ValidityError,
        >(bytes),
        0 <= i < count,
    ensures
        bytes.len() == count,
        bytes[i] == 0 || bytes[i] == 1,
        source is Full ==> bytes[i] == 1,
        source is DatasetMask ==> (bytes[i] == 1 <==> small_sample(
            components[0],
            raster.bits_per_sample,
            i,
        ) != 0),
        source is AssociatedAlpha && alpha_band(profile) is Some && 1 <= alpha_band(profile)->0
            <= usize::MAX ==> ({
            let alpha = components[alpha_band(profile)->0 - 1];
            let bits = raster.bits_per_sample;
            &&& bits <= 8 ==> (bytes[i] == 1 <==> small_sample(alpha, bits, i) != 0)
            &&& bits > 8 ==> (bytes[i] == 1 <==> wide_sample(alpha, bits, i) != 0)
        }),
        source is AssociatedAlpha ==> alpha_band(profile) is Some,
        source is BlackRgb ==> ({
            let bits = raster.bits_per_sample;
            &&& bits <= 8 ==> (bytes[i] == 0 <==> small_sample(components[0], bits, i) == 0
                && small_sample(components[1], bits, i) == 0 && small_sample(
                components[2],
                bits,
                i,
            ) == 0)
            &&& bits > 8 ==> (bytes[i] == 0 <==> wide_sample(components[0], bits, i) == 0
                && wide_sample(components[1], bits, i) == 0 && wide_sample(components[2], bits, i)
                == 0)
        }),
{
}

/// The sample of a component in a place, as an 8-bit sample.
pub open spec fn small_sample(component: ComponentView, bits: u8, i: int) -> u8 {
    <u8 as Jp2Sample>::converted(component.2, component.3, bits, component.4[i])
}

/// The sample of a component in a place, as a 16-bit sample.
pub open spec fn wide_sample(component: ComponentView, bits: u8, i: int) -> u16 {
    <u16 as Jp2Sample>::converted(component.2, component.3, bits, component.4[i])
}

/// Where a value for missing data tells valid pixels, those of the first component are valid
/// that differ from it; samples of other kinds than those it is looked for among are valid.
pub proof fn law_missing_samples_of_components_are_invalid(
    components: Seq<ComponentView>,
    raster: Jp2Raster,
    nodata: NodataValue,
    count: nat,
    bytes: Seq<u8>,
    i: int,
)
    requires
        nodata_validity(components, raster, nodata, count) == Ok::<Seq<u8>, Jp2ValidityError>(
            bytes,
        ),
        0 <= i < count,
    ensures
        bytes.len() == count,
        bytes[i] == 0 || bytes[i] == 1,
        raster.sample_format is Uint && raster.bits_per_sample == 8 && nodata is U8 ==> (bytes[i]
            == 0 <==> small_sample(components[0], 8, i) == nodata->U8_0),
        raster.sample_format is Uint && raster.bits_per_sample == 16 && nodata is U16 ==> (bytes[i]
            == 0 <==> wide_sample(components[0], 16, i) == nodata->U16_0),
        raster.sample_format is Int && raster.bits_per_sample == 16 && nodata is I16 ==> (bytes[i]
            == 0 <==> <i16 as Jp2Sample>::converted(
            components[0].2,
            components[0].3,
            16,
            components[0].4[i],
        ) == nodata->I16_0),
        raster.bits_per_sample != 8 && raster.bits_per_sample != 16 ==> bytes[i] == 1,
{
}

/// A mask shows of each pixel what was told of it: the byte in the pixel's place of the tile
/// that holds it.
pub proof fn law_told_mask_shows_tiles(
    data: Seq<u8>,
    raster: Jp2Raster,
    profile: RasterProfile,
    source: ResolvedValiditySource,
    window: Option<WriteWindow>,
    nodata: Option<NodataValue>,
    width: nat,
    height: nat,
    tile_size: nat,
    mask: ValidityMask,
    i: int,
    x: int,
    y: int,
)
    requires
        is_told_mask(
            data,
            raster,
            profile,
            source,
            window,
            nodata,
            width,
            height,
            tile_size,
            mask,
        ),
        0 < tile_size <= u32::MAX,
        width <= u32::MAX,
        height <= u32::MAX,
        0 <= x < width,
        0 <= y < height,
        mask.has(y, x),
        0 <= i < tile_grid(width, height, tile_size).len(),
        tile_grid(width, height, tile_size)[i].covers(x, y),
    ensures
        ({
            let job = tile_grid(width, height, tile_size)[i];
            told_tile(data, raster, profile, source, window, nodata, job) matches Ok(bytes)
                && mask.at(y, x) == bytes[(y - job.row_off) * job.cols + (x - job.col_off)]
        }),
{
    let jobs = tile_grid(width, height, tile_size);
    let tiles = choose|tiles: Seq<Vec<u8>>| #[trigger]
        tiles_told(data, raster, profile, source, window, nodata, jobs, tiles) && tiles.len()
            == tile_count(width, height, tile_size) && forall|r: int, c: int|
            mask.has(r, c) ==> #[trigger] mask.at(r, c) == tile_byte(
                width,
                height,
                tile_size,
                tiles,
                r,
                c,
            );
    law_tiles_partition_raster(width, height, tile_size, x, y);
    assert(jobs[i].covers(x, y));
    assert(i == tile_index(width, tile_size, y, x));
    assert(told_tile(data, raster, profile, source, window, nodata, jobs[i]) == Ok::<
        Seq<u8>,
        Jp2ValidityError,
    >(tiles[i]@));
}

/// A band, counted from one, is the component in that place, and the colors are the first
/// three, each with a sample for each pixel.
pub proof fn law_planes_are_components_of_the_image<T: Jp2Sample>(
    components: Seq<ComponentView>,
    bits: u8,
    band: usize,
    count: nat,
    i: int,
)
    requires
        0 <= i < count,
        band >= 1,
    ensures
        band_plane::<T>(components, bits, band, count) matches Ok(plane) ==> {
            &&& band <= components.len()
            &&& plane.len() == count
            &&& plane[i] == converted_plane::<T>(components[band - 1], bits)[i]
        },
        color_planes::<T>(components, bits, count) matches Ok(colors) ==> {
            &&& components.len() >= 3
            &&& colors.0.len() == count && colors.1.len() == count && colors.2.len() == count
            &&& colors.0[i] == converted_plane::<T>(components[0], bits)[i]
            &&& colors.1[i] == converted_plane::<T>(components[1], bits)[i]
            &&& colors.2[i] == converted_plane::<T>(components[2], bits)[i]
        },
        band > components.len() > 0 ==> band_plane::<T>(components, bits, band, count) == Err::<
            Seq<T>,
            Jp2Error,
        >(Jp2Error::MissingComponent { band }),
        0 < components.len() < 3 && colors_convertible::<T>(components, bits) ==> (color_planes::<T>(
            components,
            bits,
            count,
        ) matches Err(Jp2Error::MissingComponent { band: missing }) && missing == components.len()
            + 1),
{
}

} // verus!
