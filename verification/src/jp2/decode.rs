//! Decoding parts of a JPEG 2000 image into planes of samples.
use crate::arith::{
    ceil_div, div_ceil, lemma_ceil_div, lemma_ceil_div_unique, lemma_grid_index, lemma_grid_split,
    lemma_mul_bound, min_of,
};
use crate::bands::{
    band_seq, bands_exist, bands_positive, first_missing, lemma_bands_exist_extend,
};
use vstd::arithmetic::div_mod::{lemma_fundamental_div_mod, lemma_fundamental_div_mod_converse};
use vstd::arithmetic::power2::{lemma2_to64, lemma_pow2_pos, lemma_pow2_unfold, pow2};
use vstd::prelude::*;

verus! {

/// Side of the squares in which an image is decoded.
pub const TILE_SIZE: u32 = 1024;

/// The most times that the decoder halves an image while decoding it.
pub const MAX_OPENJPEG_REDUCE: u32 = 4;

/// A rectangle of an image; the second corner lies behind it.
#[derive(Clone, Copy, Debug, PartialEq, Eq, Structural)]
pub struct Region {
    pub x0: u32,
    pub y0: u32,
    pub x1: u32,
    pub y1: u32,
}

impl Region {
    /// Whether the pixel in column `x` of row `y` lies in the region.
    pub open spec fn covers(self, x: int, y: int) -> bool {
        self.x0 <= x < self.x1 && self.y0 <= y < self.y1
    }
}

/// The region in row `row` and column `col` of the squares of a rectangle.
pub open spec fn region_of(
    x_off: nat,
    y_off: nat,
    width: nat,
    height: nat,
    row: int,
    col: int,
) -> Region {
    Region {
        x0: (x_off + col * TILE_SIZE) as u32,
        y0: (y_off + row * TILE_SIZE) as u32,
        x1: (x_off + min_of(col * TILE_SIZE + TILE_SIZE, width as int)) as u32,
        y1: (y_off + min_of(row * TILE_SIZE + TILE_SIZE, height as int)) as u32,
    }
}

/// The squares of a rectangle, row by row.
pub open spec fn region_grid(x_off: nat, y_off: nat, width: nat, height: nat) -> Seq<Region> {
    let across = ceil_div(width, TILE_SIZE as nat);
    let down = ceil_div(height, TILE_SIZE as nat);
    Seq::new(
        down * across,
        |i: int| region_of(x_off, y_off, width, height, i / across as int, i % across as int),
    )
}

/// The squares of a rectangle of an image, row by row from the upper left.
pub fn regions(width: u32, height: u32, x_off: u32, y_off: u32) -> (list: Vec<Region>)
    requires
        x_off + width <= u32::MAX,
        y_off + height <= u32::MAX,
    ensures
        list@ == region_grid(x_off as nat, y_off as nat, width as nat, height as nat),
{
    regions_in_rect(x_off, y_off, width, height)
}

proof fn lemma_region_bounds(side: nat, index: int)
    requires
        0 <= index < ceil_div(side, TILE_SIZE as nat),
    ensures
        0 <= index * TILE_SIZE < side,
{
    lemma_ceil_div(side, TILE_SIZE as nat);
    assert(index * TILE_SIZE <= (ceil_div(side, TILE_SIZE as nat) - 1) * TILE_SIZE);
}

/// The squares of a rectangle of an image, row by row from the upper left.
pub fn regions_in_rect(x_off: u32, y_off: u32, width: u32, height: u32) -> (list: Vec<Region>)
    requires
        x_off + width <= u32::MAX,
        y_off + height <= u32::MAX,
    ensures
        list@ == region_grid(x_off as nat, y_off as nat, width as nat, height as nat),
{
    let across: usize = div_ceil(width as usize, TILE_SIZE as usize);
    let down: usize = div_ceil(height as usize, TILE_SIZE as usize);
    let mut list: Vec<Region> = Vec::new();
    let mut row: usize = 0;
    assert(0 * across == 0);
    while row < down
        invariant
            row <= down,
            x_off + width <= u32::MAX,
            y_off + height <= u32::MAX,
            across == ceil_div(width as nat, TILE_SIZE as nat),
            down == ceil_div(height as nat, TILE_SIZE as nat),
            list@.len() == row * across,
            forall|i: int|
                0 <= i < list@.len() ==> #[trigger] list@[i] == region_of(
                    x_off as nat,
                    y_off as nat,
                    width as nat,
                    height as nat,
                    i / across as int,
                    i % across as int,
                ),
        decreases down - row,
    {
        let mut col: usize = 0;
        while col < across
            invariant
                row < down,
                col <= across,
                x_off + width <= u32::MAX,
                y_off + height <= u32::MAX,
                across == ceil_div(width as nat, TILE_SIZE as nat),
                down == ceil_div(height as nat, TILE_SIZE as nat),
                list@.len() == row * across + col,
                forall|i: int|
                    0 <= i < list@.len() ==> #[trigger] list@[i] == region_of(
                        x_off as nat,
                        y_off as nat,
                        width as nat,
                        height as nat,
                        i / across as int,
                        i % across as int,
                    ),
            decreases across - col,
        {
            proof {
                lemma_region_bounds(width as nat, col as int);
                lemma_region_bounds(height as nat, row as int);
                lemma_grid_index(row as int, col as int, across as int, down as int);
            }
            let local_x: u32 = col as u32 * TILE_SIZE;
            let local_y: u32 = row as u32 * TILE_SIZE;
            let end_x: u32 = if width - local_x < TILE_SIZE {
                width
            } else {
                local_x + TILE_SIZE
            };
            let end_y: u32 = if height - local_y < TILE_SIZE {
                height
            } else {
                local_y + TILE_SIZE
            };
            list.push(
                Region {
                    x0: x_off + local_x,
                    y0: y_off + local_y,
                    x1: x_off + end_x,
                    y1: y_off + end_y,
                },
            );
            col = col + 1;
        }
        proof {
            assert((row + 1) * across == row * across + across) by (nonlinear_arith);
        }
        row = row + 1;
    }
    assert(list@ =~= region_grid(x_off as nat, y_off as nat, width as nat, height as nat));
    list
}

/// Every pixel of the rectangle is decoded in exactly one region.
pub proof fn law_regions_partition_rect(
    x_off: nat,
    y_off: nat,
    width: nat,
    height: nat,
    x: int,
    y: int,
)
    requires
        x_off + width <= u32::MAX,
        y_off + height <= u32::MAX,
        x_off <= x < x_off + width,
        y_off <= y < y_off + height,
    ensures
        ({
            let list = region_grid(x_off, y_off, width, height);
            let home = (y - y_off) / TILE_SIZE as int * ceil_div(width, TILE_SIZE as nat) + (x
                - x_off) / TILE_SIZE as int;
            &&& 0 <= home < list.len()
            &&& forall|i: int|
                0 <= i < list.len() ==> (#[trigger] list[i].covers(x, y) <==> i == home)
        }),
{
    let across = ceil_div(width, TILE_SIZE as nat) as int;
    let down = ceil_div(height, TILE_SIZE as nat) as int;
    lemma_ceil_div(width, TILE_SIZE as nat);
    lemma_ceil_div(height, TILE_SIZE as nat);
    let row = (y - y_off) / TILE_SIZE as int;
    let col = (x - x_off) / TILE_SIZE as int;
    lemma_grid_index(row, col, across, down);
    let list = region_grid(x_off, y_off, width, height);
    let home = row * across + col;
    assert forall|i: int| 0 <= i < list.len() implies (#[trigger] list[i].covers(x, y) <==> i
        == home) by {
        lemma_grid_split(i, across, down);
        lemma_region_bounds(width, i % across);
        lemma_region_bounds(height, i / across);
    }
}

/// How often the decoder halves the image for an overview: as often as its factor can
/// be halved, and at most four times.
pub open spec fn halvings(level: nat) -> nat {
    trailing_halvings(level, MAX_OPENJPEG_REDUCE as nat)
}

/// How often `level` can be halved without remainder, at most `limit` times.
pub open spec fn trailing_halvings(level: nat, limit: nat) -> nat
    decreases limit,
{
    if limit == 0 || level % 2 != 0 {
        0
    } else {
        1 + trailing_halvings(level / 2, (limit - 1) as nat)
    }
}

/// How often the decoder halves the image for an overview.
pub fn openjpeg_reduce(level: u32) -> (reduce: u32)
    ensures
        reduce == halvings(level as nat),
{
    let mut rest: u32 = level;
    let mut reduce: u32 = 0;
    while reduce < MAX_OPENJPEG_REDUCE && rest % 2 == 0
        invariant
            reduce <= MAX_OPENJPEG_REDUCE,
            trailing_halvings(level as nat, MAX_OPENJPEG_REDUCE as nat) == reduce
                + trailing_halvings(rest as nat, (MAX_OPENJPEG_REDUCE - reduce) as nat),
        decreases MAX_OPENJPEG_REDUCE - reduce,
    {
        rest = rest / 2;
        reduce = reduce + 1;
    }
    reduce
}

proof fn lemma_trailing_halvings(level: nat, limit: nat)
    ensures
        trailing_halvings(level, limit) <= limit,
        level % pow2(trailing_halvings(level, limit)) == 0,
        level > 0 ==> pow2(trailing_halvings(level, limit)) <= level,
    decreases limit,
{
    lemma2_to64();
    if limit > 0 && level % 2 == 0 {
        let k = trailing_halvings(level / 2, (limit - 1) as nat);
        lemma_trailing_halvings(level / 2, (limit - 1) as nat);
        lemma_pow2_unfold(k + 1);
        lemma_pow2_pos(k);
        let p = pow2(k) as int;
        let half = level as int / 2;
        lemma_fundamental_div_mod(half, p);
        let q = half / p;
        assert(level == (2 * p) * q) by (nonlinear_arith)
            requires
                level == 2 * half,
                half == p * q,
        ;
        lemma_fundamental_div_mod_converse(level as int, 2 * p, q, 0);
    }
}

/// The decoder never reduces an image further than the overview asks for: the factor
/// that it reaches divides the overview's factor.
pub proof fn law_reduction_divides_level(level: nat)
    requires
        level > 0,
    ensures
        halvings(level) <= MAX_OPENJPEG_REDUCE,
        1 <= pow2(halvings(level)) <= level,
        level % pow2(halvings(level)) == 0,
{
    lemma_trailing_halvings(level, MAX_OPENJPEG_REDUCE as nat);
    lemma_pow2_pos(halvings(level));
}

/// One component of a decoded image: its size, how its samples are stored, and the
/// samples row by row.
#[derive(Debug)]
pub struct Component {
    pub width: u32,
    pub height: u32,
    pub precision: u32,
    pub signed: bool,
    pub data: Vec<i32>,
}

/// What a [`Component`] holds: width, height, precision, whether samples are signed,
/// and the samples.
pub type ComponentView = (u32, u32, u32, bool, Seq<i32>);

impl View for Component {
    type V = (u32, u32, u32, bool, Seq<i32>);

    open spec fn view(&self) -> (u32, u32, u32, bool, Seq<i32>) {
        (self.width, self.height, self.precision, self.signed, self.data@)
    }
}

/// The views of several components.
pub open spec fn component_views(components: Seq<Component>) -> Seq<ComponentView> {
    components.map_values(|component: Component| component@)
}

/// What the header of an image says: width and height, and of each component its
/// precision and whether its samples are signed.
#[derive(Debug)]
pub struct ImageHeader {
    pub width: u32,
    pub height: u32,
    pub components: Vec<(u32, bool)>,
}

impl View for ImageHeader {
    type V = (u32, u32, Seq<(u32, bool)>);

    open spec fn view(&self) -> (u32, u32, Seq<(u32, bool)>) {
        (self.width, self.height, self.components@)
    }
}

/// What `jpeg2k` reads from the header of an image; none where it finds no header.
pub uninterp spec fn jp2_header(data: Seq<u8>) -> Option<(u32, u32, Seq<(u32, bool)>)>;

/// What `jpeg2k` decodes of the rectangle of an image with these corners; none where it
/// cannot decode it.
pub uninterp spec fn jp2_region(
    data: Seq<u8>,
    x0: u32,
    y0: u32,
    x1: u32,
    y1: u32,
) -> Option<Seq<(u32, u32, u32, bool, Seq<i32>)>>;

/// What `jpeg2k` decodes of an image that is halved `reduce` times; none where it
/// cannot decode it.
pub uninterp spec fn jp2_overview(data: Seq<u8>, reduce: u32) -> Option<
    Seq<(u32, u32, u32, bool, Seq<i32>)>,
>;

/// The rectangle has pixels, and their count fits 32 bits.
pub open spec fn region_countable(region: Region) -> bool {
    &&& region.x0 < region.x1
    &&& region.y0 < region.y1
    &&& (region.x1 - region.x0) * (region.y1 - region.y0) <= u32::MAX
}

/// One side of an image that is halved `reduce` times.
pub open spec fn halved_side(side: nat, reduce: nat) -> nat {
    ceil_div(side, pow2(reduce))
}

/// The image, halved `reduce` times, has few enough pixels for their count to fit 32 bits.
pub open spec fn pixels_fit(data: Seq<u8>, reduce: nat) -> bool {
    jp2_header(data) matches Some(header) && halved_side(header.0 as nat, reduce) * halved_side(
        header.1 as nat,
        reduce,
    ) <= u32::MAX
}

/// `jpeg2k::DumpImage::from_bytes`: the size of an image and the precision and
/// signedness of its components, a function of the bytes alone.
#[verifier::external_body]
pub(crate) fn read_header(data: &[u8]) -> (header: Option<ImageHeader>)
    ensures
        match header {
            Some(read) => jp2_header(data@) == Some(read@),
            None => jp2_header(data@) is None,
        },
{
    let dump = jpeg2k::DumpImage::from_bytes(data).ok()?;
    Some(ImageHeader {
        width: dump.img.orig_width(),
        height: dump.img.orig_height(),
        components: dump.img.components().iter().map(|c| (c.precision(), c.is_signed())).collect(),
    })
}

/// `jpeg2k::Image::from_bytes_with` with a decode area: the components of the rectangle
/// with these corners, a function of the bytes and the corners alone. A component has at
/// most the pixels of the rectangle, or of the image where the rectangle has none; the crate
/// counts them in 32 bits.
#[verifier::external_body]
pub(crate) fn decode_region(data: &[u8], region: &Region) -> (components: Option<Vec<Component>>)
    requires
        region_countable(*region) || pixels_fit(data@, 0),
    ensures
        match components {
            Some(decoded) => jp2_region(data@, region.x0, region.y0, region.x1, region.y1) == Some(
                component_views(decoded@),
            ),
            None => jp2_region(data@, region.x0, region.y0, region.x1, region.y1) is None,
        },
{
    let area = jpeg2k::DecodeArea::new(region.x0, region.y0, region.x1, region.y1);
    let params = jpeg2k::DecodeParameters::new().decode_area(Some(area));
    let image = jpeg2k::Image::from_bytes_with(data, params).ok()?;
    Some(image.components().iter().map(|c| Component {
        width: c.width(),
        height: c.height(),
        precision: c.precision(),
        signed: c.is_signed(),
        data: c.data().to_vec(),
    }).collect())
}

/// `jpeg2k::Image::from_bytes_with` with a reduction: the components of the whole image
/// halved `reduce` times, a function of the bytes and the reduction alone. A component has
/// at most the pixels of the image that is halved as often; the crate counts them in 32
/// bits.
#[verifier::external_body]
pub(crate) fn decode_reduced(data: &[u8], reduce: u32) -> (components: Option<Vec<Component>>)
    requires
        pixels_fit(data@, reduce as nat),
    ensures
        match components {
            Some(decoded) => jp2_overview(data@, reduce) == Some(component_views(decoded@)),
            None => jp2_overview(data@, reduce) is None,
        },
{
    let params = jpeg2k::DecodeParameters::new().reduce(reduce);
    let image = jpeg2k::Image::from_bytes_with(data, params).ok()?;
    Some(image.components().iter().map(|c| Component {
        width: c.width(),
        height: c.height(),
        precision: c.precision(),
        signed: c.is_signed(),
        data: c.data().to_vec(),
    }).collect())
}

/// Why an image or a part of it cannot be used.
#[derive(Debug, Clone, Copy, PartialEq, Eq, Structural)]
pub enum Jp2Error {
    UnreadableHeader,
    UndecodableRegion,
    UndecodableOverview,
    TooManyPixels,
    NoComponents,
    MixedBitDepth,
    MixedSignedness,
    UnsupportedBitDepth { bits: u8 },
    NoBandSelected,
    BandOutOfRange { band: usize },
    MissingComponent { band: usize },
    UnsupportedLayout,
    UnsupportedPrecision,
    PlaneShape,
    SizeMismatch { expected: usize, found: usize },
}

/// The low `bits` bits of a sample, read as a signed number.
pub open spec fn sign_extended(value: i32, bits: u8) -> i32 {
    let shift = spare_bits(bits);
    (value << shift) >> shift
}

/// How many of the 32 bits of a sample lie above the low `bits` bits.
pub open spec fn spare_bits(bits: u8) -> u32 {
    if bits <= 32 {
        (32 - bits) as u32
    } else {
        0
    }
}

fn sign_extend(value: i32, bits: u8) -> (extended: i32)
    requires
        bits >= 1,
    ensures
        extended == sign_extended(value, bits),
{
    let shift: u32 = if bits <= 32 {
        32 - bits as u32
    } else {
        0
    };
    (value << shift) >> shift
}

/// The quotient, rounded towards zero.
pub open spec fn quotient(dividend: int, divisor: int) -> int {
    if dividend >= 0 {
        dividend / divisor
    } else {
        -((-dividend) / divisor)
    }
}

/// A signed sample of `precision` bits, scaled to `half` values on either side of zero
/// and moved up by `half`. The span of 32-bit samples counts as negative, as that of a
/// 32-bit number does, and turns the samples over.
pub open spec fn scaled_signed(value: i32, precision: u32, half: int) -> int {
    let scaled = quotient(value * half, (1u64 << ((precision - 1) as u32)) as int);
    half + (if precision == 32 {
        -scaled
    } else {
        scaled
    })
}

/// An unsigned sample of `precision` bits, scaled to the values up to `max`.
pub open spec fn scaled_unsigned(value: i32, precision: u32, max: int) -> int {
    ((value as u32) * max) / ((1u64 << precision) - 1)
}

fn scale_signed(value: i32, precision: u32, half: u32) -> (scaled: i64)
    requires
        1 <= precision <= 32,
        half <= 32768,
    ensures
        scaled == scaled_signed(value, precision, half as int),
{
    let shift: u32 = precision - 1;
    let old_max: u64 = 1u64 << shift;
    assert(old_max >= 1) by (bit_vector)
        requires
            old_max == 1u64 << shift,
            shift <= 31,
    ;
    let magnitude: u64 = if value >= 0 {
        value as u64
    } else {
        (-(value as i64)) as u64
    };
    proof {
        lemma_mul_bound(magnitude as int, half as int, 2147483648, 32768);
        assert((-(value as int)) * half == -(value * half)) by (nonlinear_arith);
        lemma_quotient_bound((magnitude * half) as int, old_max as int);
    }
    let scaled: u64 = magnitude * half as u64 / old_max;
    proof {
        if value < 0 && value * half >= 0 {
            assert(value * half == 0) by (nonlinear_arith)
                requires
                    value < 0,
                    half >= 0,
                    value * half >= 0,
            ;
        }
        if value >= 0 {
            assert(value * half >= 0) by (nonlinear_arith)
                requires
                    value >= 0,
                    half >= 0,
            ;
        }
    }
    if (value >= 0) != (precision == 32) {
        half as i64 + scaled as i64
    } else {
        half as i64 - scaled as i64
    }
}

fn scale_unsigned(value: i32, precision: u32, max: u32) -> (scaled: u64)
    requires
        1 <= precision <= 30,
        max <= 65535,
    ensures
        scaled == scaled_unsigned(value, precision, max as int),
{
    let power: u64 = 1u64 << precision;
    assert(power >= 2) by (bit_vector)
        requires
            power == 1u64 << precision,
            1 <= precision,
            precision <= 30,
    ;
    let raw: u32 = value as u32;
    proof {
        lemma_mul_bound(raw as int, max as int, 4294967295, 65535);
    }
    raw as u64 * max as u64 / (power - 1)
}

proof fn lemma_quotient_bound(dividend: int, divisor: int)
    requires
        0 <= dividend,
        1 <= divisor,
    ensures
        0 <= dividend / divisor <= dividend,
{
    vstd::arithmetic::div_mod::lemma_div_pos_is_pos(dividend, divisor);
    vstd::arithmetic::div_mod::lemma_div_is_ordered_by_denominator(dividend, 1, divisor);
}

/// A sample type that components convert to.
pub trait Jp2Sample: Copy {
    /// What a sample of a component becomes.
    spec fn converted(precision: u32, signed: bool, bits: u8, value: i32) -> Self;

    /// The sample that fills tiles behind the edge of the image.
    spec fn zero() -> Self;

    /// Whether components of this precision convert.
    spec fn convertible(precision: u32, signed: bool, bits: u8) -> bool;

    fn can_convert(precision: u32, signed: bool, bits: u8) -> (can: bool)
        ensures
            can == Self::convertible(precision, signed, bits),
    ;

    fn convert(precision: u32, signed: bool, bits: u8, value: i32) -> (sample: Self)
        requires
            Self::convertible(precision, signed, bits),
        ensures
            sample == Self::converted(precision, signed, bits, value),
    ;

    fn fill() -> (sample: Self)
        ensures
            sample == Self::zero(),
    ;
}

impl Jp2Sample for u8 {
    open spec fn converted(precision: u32, signed: bool, bits: u8, value: i32) -> u8 {
        if precision == 8 && !signed {
            value as u8
        } else if signed {
            (scaled_signed(value, precision, 128) as i64) as u8
        } else {
            (scaled_unsigned(value, precision, 255) as u64) as u8
        }
    }

    open spec fn zero() -> u8 {
        0
    }

    open spec fn convertible(precision: u32, signed: bool, bits: u8) -> bool {
        1 <= precision <= (if signed {
            32int
        } else {
            30int
        })
    }

    fn can_convert(precision: u32, signed: bool, _bits: u8) -> (can: bool) {
        1 <= precision && (precision <= 30 || (signed && precision <= 32))
    }

    fn convert(precision: u32, signed: bool, _bits: u8, value: i32) -> (sample: u8) {
        if precision == 8 && !signed {
            #[verifier::truncate]
            (value as u8)
        } else if signed {
            #[verifier::truncate]
            (scale_signed(value, precision, 128) as u8)
        } else {
            #[verifier::truncate]
            (scale_unsigned(value, precision, 255) as u8)
        }
    }

    fn fill() -> (sample: u8) {
        0
    }
}

impl Jp2Sample for u16 {
    open spec fn converted(precision: u32, signed: bool, bits: u8, value: i32) -> u16 {
        if signed {
            (scaled_signed(value, precision, 32768) as i64) as u16
        } else if precision <= 16 {
            value as u16
        } else {
            (scaled_unsigned(value, precision, 65535) as u64) as u16
        }
    }

    open spec fn zero() -> u16 {
        0
    }

    open spec fn convertible(precision: u32, signed: bool, bits: u8) -> bool {
        if signed {
            1 <= precision <= 32
        } else {
            precision <= 30
        }
    }

    fn can_convert(precision: u32, signed: bool, _bits: u8) -> (can: bool) {
        if signed {
            1 <= precision && precision <= 32
        } else {
            precision <= 30
        }
    }

    fn convert(precision: u32, signed: bool, _bits: u8, value: i32) -> (sample: u16) {
        if signed {
            #[verifier::truncate]
            (scale_signed(value, precision, 32768) as u16)
        } else if precision <= 16 {
            #[verifier::truncate]
            (value as u16)
        } else {
            #[verifier::truncate]
            (scale_unsigned(value, precision, 65535) as u16)
        }
    }

    fn fill() -> (sample: u16) {
        0
    }
}

impl Jp2Sample for i8 {
    open spec fn converted(precision: u32, signed: bool, bits: u8, value: i32) -> i8 {
        sign_extended(value, bits) as i8
    }

    open spec fn zero() -> i8 {
        0
    }

    open spec fn convertible(precision: u32, signed: bool, bits: u8) -> bool {
        bits >= 1
    }

    fn can_convert(_precision: u32, _signed: bool, bits: u8) -> (can: bool) {
        bits >= 1
    }

    fn convert(_precision: u32, _signed: bool, bits: u8, value: i32) -> (sample: i8) {
        #[verifier::truncate]
        (sign_extend(value, bits) as i8)
    }

    fn fill() -> (sample: i8) {
        0
    }
}

impl Jp2Sample for i16 {
    open spec fn converted(precision: u32, signed: bool, bits: u8, value: i32) -> i16 {
        sign_extended(value, bits) as i16
    }

    open spec fn zero() -> i16 {
        0
    }

    open spec fn convertible(precision: u32, signed: bool, bits: u8) -> bool {
        bits >= 1
    }

    fn can_convert(_precision: u32, _signed: bool, bits: u8) -> (can: bool) {
        bits >= 1
    }

    fn convert(_precision: u32, _signed: bool, bits: u8, value: i32) -> (sample: i16) {
        #[verifier::truncate]
        (sign_extend(value, bits) as i16)
    }

    fn fill() -> (sample: i16) {
        0
    }
}

/// Bands of an image, each row by row, and the width of the rows.
#[derive(Debug)]
pub struct Planes<T> {
    pub planes: Vec<Vec<T>>,
    pub width: usize,
}

/// The samples of a component, converted.
pub open spec fn converted_plane<T: Jp2Sample>(component: ComponentView, bits: u8) -> Seq<T> {
    component.4.map_values(|value: i32| T::converted(component.2, component.3, bits, value))
}

fn component_to_vec<T: Jp2Sample>(component: &Component, bits: u8) -> (plane: Vec<T>)
    requires
        T::convertible(component.precision, component.signed, bits),
    ensures
        plane@ == converted_plane::<T>(component@, bits),
{
    let mut plane: Vec<T> = Vec::new();
    let mut i: usize = 0;
    while i < component.data.len()
        invariant
            i <= component.data@.len(),
            T::convertible(component.precision, component.signed, bits),
            plane@.len() == i,
            forall|j: int|
                0 <= j < i ==> #[trigger] plane@[j] == T::converted(
                    component.precision,
                    component.signed,
                    bits,
                    component.data@[j],
                ),
        decreases component.data@.len() - i,
    {
        plane.push(T::convert(component.precision, component.signed, bits, component.data[i]));
        i = i + 1;
    }
    assert(plane@ =~= converted_plane::<T>(component@, bits));
    plane
}

/// The bands that are asked for, counted from one: those of the selection, else all.
pub open spec fn wanted_bands(count: nat, bands: Option<Seq<usize>>) -> Seq<usize> {
    match bands {
        Some(selected) => selected,
        None => Seq::new(count, |i: int| (i + 1) as usize),
    }
}

/// The bands of a decoded image, converted. The first selected band that has no
/// component is an error, and so is an image without components.
pub fn planes_for_image<T: Jp2Sample>(
    components: &Vec<Component>,
    bits: u8,
    bands: Option<&[usize]>,
) -> (result: Result<Planes<T>, Jp2Error>)
    requires
        all_convertible::<T>(
            component_views(components@),
            bits,
            wanted_bands(components@.len(), band_seq(bands)),
        ),
        band_seq(bands) matches Some(selected) ==> bands_positive(selected),
    ensures
        ({
            let wanted = wanted_bands(components@.len(), band_seq(bands));
            match result {
                Ok(out) => {
                    &&& components@.len() > 0
                    &&& bands_exist(wanted, components@.len())
                    &&& out.width == components@[0].width
                    &&& out.planes@.len() == wanted.len()
                    &&& forall|i: int|
                        0 <= i < wanted.len() ==> (#[trigger] out.planes@[i])@ == converted_plane::<
                            T,
                        >(components@[wanted[i] - 1]@, bits)
                },
                Err(error) => if components@.len() == 0 {
                    error == Jp2Error::NoComponents
                } else {
                    error matches Jp2Error::MissingComponent { band } && first_missing(
                        wanted,
                        components@.len(),
                        band,
                    )
                },
            }
        }),
{
    let count: usize = components.len();
    if count == 0 {
        return Err(Jp2Error::NoComponents);
    }
    let ghost wanted = wanted_bands(components@.len(), band_seq(bands));
    let total: usize = match bands {
        Some(selected) => selected.len(),
        None => count,
    };
    let mut planes: Vec<Vec<T>> = Vec::new();
    let mut i: usize = 0;
    while i < total
        invariant
            i <= total,
            total == wanted.len(),
            count == components@.len(),
            count > 0,
            wanted == wanted_bands(components@.len(), band_seq(bands)),
            band_seq(bands) matches Some(selected) ==> bands_positive(selected),
            all_convertible::<T>(component_views(components@), bits, wanted),
            bands_exist(wanted.take(i as int), components@.len()),
            planes@.len() == i,
            forall|k: int|
                0 <= k < i ==> (#[trigger] planes@[k])@ == converted_plane::<T>(
                    components@[wanted[k] - 1]@,
                    bits,
                ),
        decreases total - i,
    {
        let band: usize = match bands {
            Some(selected) => selected[i],
            None => i + 1,
        };
        assert(band == wanted[i as int]);
        if band - 1 >= count {
            return Err(Jp2Error::MissingComponent { band });
        }
        proof {
            lemma_bands_exist_extend(wanted, components@.len(), i as int);
            assert(component_views(components@)[band - 1] == components@[band - 1]@);
            assert(wanted[i as int] >= 1);
        }
        planes.push(component_to_vec(&components[band - 1], bits));
        i = i + 1;
    }
    assert(wanted.take(i as int) =~= wanted);
    Ok(Planes { planes, width: components[0].width as usize })
}

/// Whether the components that are asked for convert to a sample type, as far as there is
/// none missing before them.
pub open spec fn all_convertible<T: Jp2Sample>(
    components: Seq<ComponentView>,
    bits: u8,
    wanted: Seq<usize>,
) -> bool {
    forall|i: int|
        0 <= i < wanted.len() && bands_exist(wanted.take(i + 1), components.len())
            ==> T::convertible(
            components[#[trigger] wanted[i] - 1].2,
            components[wanted[i] - 1].3,
            bits,
        )
}

fn components_convertible<T: Jp2Sample>(
    components: &Vec<Component>,
    bits: u8,
    bands: Option<&[usize]>,
) -> (can: bool)
    requires
        band_seq(bands) matches Some(selected) ==> bands_positive(selected),
    ensures
        can == all_convertible::<T>(
            component_views(components@),
            bits,
            wanted_bands(components@.len(), band_seq(bands)),
        ),
{
    let count: usize = components.len();
    let ghost views = component_views(components@);
    let ghost wanted = wanted_bands(components@.len(), band_seq(bands));
    let total: usize = match bands {
        Some(selected) => selected.len(),
        None => count,
    };
    let mut i: usize = 0;
    while i < total
        invariant
            i <= total,
            total == wanted.len(),
            count == components@.len(),
            views == component_views(components@),
            wanted == wanted_bands(components@.len(), band_seq(bands)),
            band_seq(bands) matches Some(selected) ==> bands_positive(selected),
            bands_exist(wanted.take(i as int), views.len()),
            forall|j: int|
                0 <= j < i ==> T::convertible(
                    views[#[trigger] wanted[j] - 1].2,
                    views[wanted[j] - 1].3,
                    bits,
                ),
        decreases total - i,
    {
        let band: usize = match bands {
            Some(selected) => selected[i],
            None => i + 1,
        };
        assert(band == wanted[i as int]);
        if band - 1 >= count {
            proof {
                assert forall|j: int|
                    0 <= j < wanted.len() && bands_exist(
                        wanted.take(j + 1),
                        views.len(),
                    ) implies T::convertible(
                    views[#[trigger] wanted[j] - 1].2,
                    views[wanted[j] - 1].3,
                    bits,
                ) by {
                    if j >= i {
                        assert(wanted.take(j + 1)[i as int] == band);
                    }
                }
            }
            return true;
        }
        proof {
            lemma_bands_exist_extend(wanted, views.len(), i as int);
            assert(views[band - 1] == components@[band - 1]@);
        }
        if !T::can_convert(components[band - 1].precision, components[band - 1].signed, bits) {
            assert(!T::convertible(views[wanted[i as int] - 1].2, views[wanted[i as int] - 1].3, bits));
            return false;
        }
        i = i + 1;
    }
    true
}

/// What becomes of decoded components: the bands that are asked for, converted.
pub open spec fn planes_of<T: Jp2Sample>(
    components: Seq<ComponentView>,
    bits: u8,
    bands: Option<Seq<usize>>,
    result: Result<Planes<T>, Jp2Error>,
) -> bool {
    let wanted = wanted_bands(components.len(), bands);
    match result {
        Ok(out) => {
            &&& all_convertible::<T>(components, bits, wanted)
            &&& components.len() > 0
            &&& bands_exist(wanted, components.len())
            &&& out.width == components[0].0
            &&& out.planes@.len() == wanted.len()
            &&& forall|i: int|
                0 <= i < wanted.len() ==> (#[trigger] out.planes@[i])@ == converted_plane::<T>(
                    components[wanted[i] - 1],
                    bits,
                )
        },
        Err(error) => if !all_convertible::<T>(components, bits, wanted) {
            error == Jp2Error::UnsupportedPrecision
        } else if components.len() == 0 {
            error == Jp2Error::NoComponents
        } else {
            error matches Jp2Error::MissingComponent { band } && first_missing(
                wanted,
                components.len(),
                band,
            )
        },
    }
}

/// Takes the bands that are asked for out of decoded components. One of them whose
/// precision does not convert is an error.
pub fn planes_from_components<T: Jp2Sample>(
    components: &Vec<Component>,
    bits: u8,
    bands: Option<&[usize]>,
) -> (result: Result<Planes<T>, Jp2Error>)
    requires
        band_seq(bands) matches Some(selected) ==> bands_positive(selected),
    ensures
        planes_of(component_views(components@), bits, band_seq(bands), result),
{
    let ghost views = component_views(components@);
    let count: usize = components.len();
    if !components_convertible::<T>(components, bits, bands) {
        return Err(Jp2Error::UnsupportedPrecision);
    }
    let result: Result<Planes<T>, Jp2Error> = planes_for_image(components, bits, bands);
    proof {
        if result is Ok {
            let out = result->Ok_0;
            let wanted = wanted_bands(components@.len(), band_seq(bands));
            assert(views[0] == components@[0]@);
            assert forall|i: int| 0 <= i < wanted.len() implies (#[trigger] out.planes@[i])@
                == converted_plane::<T>(views[wanted[i] - 1], bits) by {
                assert(wanted[i] >= 1);
                assert(wanted[i] <= components@.len());
                assert(views[wanted[i] - 1] == components@[wanted[i] - 1]@);
            }
        }
    }
    result
}

/// Whether an image that is halved `reduce` times can be decoded with its pixels counted in
/// 32 bits.
pub open spec fn decodable(data: Seq<u8>, reduce: nat) -> Result<(), Jp2Error> {
    match jp2_header(data) {
        None => Err(Jp2Error::UnreadableHeader),
        Some(header) => if pixels_fit(data, reduce) {
            Ok(())
        } else {
            Err(Jp2Error::TooManyPixels)
        },
    }
}

fn halve_side(side: u32, reduce: u32) -> (halved: u64)
    ensures
        halved == halved_side(side as nat, reduce as nat),
        halved <= side,
{
    let mut halved: u64 = side as u64;
    let mut times: u32 = 0;
    proof {
        lemma2_to64();
        lemma_ceil_div_unique(side as nat, 1, side as nat);
    }
    while times < reduce && halved > 1
        invariant
            times <= reduce,
            halved == halved_side(side as nat, times as nat),
            halved <= side,
        decreases reduce - times,
    {
        proof {
            lemma_halve_again(side as nat, times as nat);
        }
        halved = (halved + 1) / 2;
        times = times + 1;
    }
    proof {
        if times < reduce {
            lemma_halved_out(side as nat, times as nat, reduce as nat);
        }
    }
    halved
}

/// Halving once more halves what is left, rounded up.
proof fn lemma_halve_again(side: nat, times: nat)
    ensures
        halved_side(side, times + 1) == (halved_side(side, times) + 1) / 2,
{
    lemma_pow2_pos(times);
    lemma_pow2_pos(times + 1);
    lemma_pow2_unfold(times + 1);
    let p = pow2(times) as int;
    lemma_ceil_div(side, pow2(times));
    let q = halved_side(side, times) as int;
    let h = (q + 1) / 2;
    assert(side <= h * (2 * p)) by (nonlinear_arith)
        requires
            side <= q * p,
            q <= 2 * h,
            p > 0,
    ;
    if h > 0 {
        assert((h - 1) * (2 * p) < side) by (nonlinear_arith)
            requires
                (q - 1) * p < side,
                2 * (h - 1) <= q - 1,
                p > 0,
        ;
    }
    lemma_ceil_div_unique(side, pow2(times + 1), h as nat);
}

/// What has one pixel at most is not made smaller by halving.
proof fn lemma_halved_out(side: nat, times: nat, reduce: nat)
    requires
        times <= reduce,
        halved_side(side, times) <= 1,
    ensures
        halved_side(side, reduce) == halved_side(side, times),
    decreases reduce - times,
{
    if times < reduce {
        lemma_halve_again(side, times);
        lemma_halved_out(side, times + 1, reduce);
    }
}

fn check_decodable(data: &[u8], reduce: u32) -> (result: Result<(), Jp2Error>)
    ensures
        result == decodable(data@, reduce as nat),
        result is Ok ==> pixels_fit(data@, reduce as nat),
{
    match read_header(data) {
        None => Err(Jp2Error::UnreadableHeader),
        Some(header) => {
            let width: u64 = halve_side(header.width, reduce);
            let height: u64 = halve_side(header.height, reduce);
            proof {
                lemma_mul_bound(width as int, height as int, 4294967295, 4294967295);
            }
            if width * height > u32::MAX as u64 {
                Err(Jp2Error::TooManyPixels)
            } else {
                Ok(())
            }
        },
    }
}

/// What decoding a region gives: its components. A region whose pixels cannot be counted in
/// 32 bits is decoded where those of the image can.
pub open spec fn region_components(data: Seq<u8>, region: Region) -> Result<
    Seq<ComponentView>,
    Jp2Error,
> {
    if !region_countable(region) && decodable(data, 0) is Err {
        Err(decodable(data, 0)->Err_0)
    } else {
        match jp2_region(data, region.x0, region.y0, region.x1, region.y1) {
            None => Err(Jp2Error::UndecodableRegion),
            Some(components) => Ok(components),
        }
    }
}

fn is_countable(region: &Region) -> (countable: bool)
    ensures
        countable == region_countable(*region),
{
    if region.x0 >= region.x1 || region.y0 >= region.y1 {
        return false;
    }
    let width: u64 = (region.x1 - region.x0) as u64;
    let height: u64 = (region.y1 - region.y0) as u64;
    proof {
        lemma_mul_bound(width as int, height as int, 4294967295, 4294967295);
    }
    width * height <= u32::MAX as u64
}

/// Decodes a region.
pub fn decode_region_components(data: &[u8], region: &Region) -> (result: Result<
    Vec<Component>,
    Jp2Error,
>)
    ensures
        match region_components(data@, *region) {
            Ok(components) => result matches Ok(found) && component_views(found@) == components,
            Err(error) => result matches Err(found) && found == error,
        },
{
    if !is_countable(region) {
        match check_decodable(data, 0) {
            Err(error) => {
                return Err(error);
            },
            Ok(()) => {},
        }
    }
    match decode_region(data, region) {
        None => Err(Jp2Error::UndecodableRegion),
        Some(components) => Ok(components),
    }
}

/// Decodes the bands of a region that are asked for.
pub fn region_planes<T: Jp2Sample>(
    data: &[u8],
    region: &Region,
    bits: u8,
    bands: Option<&[usize]>,
) -> (result: Result<Planes<T>, Jp2Error>)
    requires
        band_seq(bands) matches Some(selected) ==> bands_positive(selected),
    ensures
        match region_components(data@, *region) {
            Err(error) => result matches Err(reported) && reported == error,
            Ok(components) => planes_of(components, bits, band_seq(bands), result),
        },
{
    match decode_region_components(data, region) {
        Err(error) => Err(error),
        Ok(components) => planes_from_components(&components, bits, bands),
    }
}

/// An image that was reduced while it was decoded: its size and its bands.
#[derive(Debug)]
pub struct ReducedImage<T> {
    pub width: usize,
    pub height: usize,
    pub planes: Planes<T>,
}

/// Decodes the bands of an image that are asked for, halved `reduce` times. The size of
/// the image is that of its first component.
pub fn overview_planes<T: Jp2Sample>(
    data: &[u8],
    reduce: u32,
    bits: u8,
    bands: Option<&[usize]>,
) -> (result: Result<ReducedImage<T>, Jp2Error>)
    requires
        band_seq(bands) matches Some(selected) ==> bands_positive(selected),
    ensures
        match decodable(data@, reduce as nat) {
            Err(error) => result matches Err(reported) && reported == error,
            Ok(()) => match jp2_overview(data@, reduce) {
                None => result matches Err(Jp2Error::UndecodableOverview),
                Some(components) => match result {
                    Ok(image) => {
                        &&& planes_of(components, bits, band_seq(bands), Ok(image.planes))
                        &&& image.width == components[0].0
                        &&& image.height == components[0].1
                    },
                    Err(error) => planes_of::<T>(components, bits, band_seq(bands), Err(error)),
                },
            },
        },
{
    match check_decodable(data, reduce) {
        Err(error) => {
            return Err(error);
        },
        Ok(()) => {},
    }
    match decode_reduced(data, reduce) {
        None => Err(Jp2Error::UndecodableOverview),
        Some(components) => match planes_from_components(&components, bits, bands) {
            Err(error) => Err(error),
            Ok(planes) => {
                assert(component_views(components@)[0] == components@[0]@);
                Ok(
                    ReducedImage {
                        width: components[0].width as usize,
                        height: components[0].height as usize,
                        planes,
                    },
                )
            },
        },
    }
}

proof fn lemma_shifted_one(shift: u32)
    requires
        shift <= 32,
    ensures
        1u64 << shift == pow2(shift as nat),
        1 <= pow2(shift as nat) <= 4294967296,
{
    lemma2_to64();
    lemma_pow2_pos(shift as nat);
    if shift < 32 {
        vstd::arithmetic::power2::lemma_pow2_strictly_increases(shift as nat, 32);
    }
    let wide = shift as u64;
    assert(1u64 << shift == 1u64 << wide) by (bit_vector)
        requires
            wide == shift as u64,
    ;
    vstd::bits::lemma_u64_shl_is_mul(1, wide);
}

/// Unsigned samples that fit the output are kept: those of up to 16 bits as 16-bit samples,
/// and those of 8 bits as 8-bit samples.
pub proof fn law_fitting_samples_are_kept(precision: u32, bits: u8, value: i32)
    requires
        0 <= value < pow2(precision as nat),
    ensures
        precision <= 16 ==> <u16 as Jp2Sample>::converted(precision, false, bits, value) == value,
        precision == 8 ==> <u8 as Jp2Sample>::converted(precision, false, bits, value) == value,
{
    lemma2_to64();
    if precision < 16 {
        vstd::arithmetic::power2::lemma_pow2_strictly_increases(precision as nat, 16);
    }
}

/// Unsigned samples that do not fit the output are scaled to its range, rounded down: zero
/// stays zero, the greatest value becomes the greatest one, and the others keep their share
/// of it.
pub proof fn law_unsigned_samples_are_scaled(precision: u32, bits: u8, value: i32)
    requires
        1 <= precision <= 30,
        0 <= value < pow2(precision as nat),
    ensures
        precision != 8 ==> ({
            let sample = <u8 as Jp2Sample>::converted(precision, false, bits, value) as int;
            let top = pow2(precision as nat) - 1;
            &&& sample * top <= value * 255 < (sample + 1) * top
            &&& value == 0 ==> sample == 0
            &&& value == top ==> sample == 255
        }),
        precision > 16 ==> ({
            let sample = <u16 as Jp2Sample>::converted(precision, false, bits, value) as int;
            let top = pow2(precision as nat) - 1;
            &&& sample * top <= value * 65535 < (sample + 1) * top
            &&& value == 0 ==> sample == 0
            &&& value == top ==> sample == 65535
        }),
{
    lemma2_to64();
    lemma_shifted_one(precision);
    vstd::arithmetic::power2::lemma_pow2_strictly_increases(0, precision as nat);
    let top = pow2(precision as nat) - 1;
    lemma_scaled_share(value as int, top, 255);
    lemma_scaled_share(value as int, top, 65535);
}

proof fn lemma_scaled_share(value: int, top: int, max: int)
    requires
        0 <= value <= top,
        1 <= top,
        0 <= max,
    ensures
        0 <= value * max / top <= max,
        (value * max / top) * top <= value * max < (value * max / top + 1) * top,
        value == 0 ==> value * max / top == 0,
        value == top ==> value * max / top == max,
{
    lemma_fundamental_div_mod(value * max, top);
    let q = value * max / top;
    assert(top * q == q * top) by (nonlinear_arith);
    assert((q + 1) * top == q * top + top) by (nonlinear_arith);
    assert(0 <= value * max <= top * max) by (nonlinear_arith)
        requires
            0 <= value <= top,
            0 <= max,
    ;
    assert(0 <= q <= max) by (nonlinear_arith)
        requires
            0 <= value * max,
            value * max <= top * max,
            q * top <= value * max,
            value * max < q * top + top,
            1 <= top,
    ;
    if value == 0 {
        assert(0 * max == 0);
        assert(q == 0) by (nonlinear_arith)
            requires
                q * top <= 0,
                0 <= q,
                1 <= top,
        ;
    }
    if value == top {
        lemma_fundamental_div_mod_converse(top * max, top, max, 0);
        assert(max * top == top * max) by (nonlinear_arith);
    }
}

/// Signed samples of up to 31 bits are scaled and moved up by half of the output's range:
/// zero becomes the middle, the least value becomes zero, and the others keep their distance
/// from the middle as a share of it, rounded towards the middle. Samples that have as many
/// bits as the output are only moved.
pub proof fn law_signed_samples_are_moved_up(precision: u32, bits: u8, value: i32)
    requires
        1 <= precision <= 31,
        -pow2((precision - 1) as nat) <= value < pow2((precision - 1) as nat),
    ensures
        ({
            let sample = <u8 as Jp2Sample>::converted(precision, true, bits, value) as int;
            let span = pow2((precision - 1) as nat) as int;
            &&& value >= 0 ==> (sample - 128) * span <= value * 128 < (sample - 127) * span
            &&& value < 0 ==> (128 - sample) * span <= -value * 128 < (129 - sample) * span
            &&& value == -span ==> sample == 0
            &&& precision == 8 ==> sample == value + 128
        }),
        ({
            let sample = <u16 as Jp2Sample>::converted(precision, true, bits, value) as int;
            let span = pow2((precision - 1) as nat) as int;
            &&& value >= 0 ==> (sample - 32768) * span <= value * 32768 < (sample - 32767) * span
            &&& value < 0 ==> (32768 - sample) * span <= -value * 32768 < (32769 - sample) * span
            &&& value == -span ==> sample == 0
            &&& precision == 16 ==> sample == value + 32768
        }),
{
    lemma2_to64();
    lemma_shifted_one((precision - 1) as u32);
    let span = pow2((precision - 1) as nat) as int;
    let distance = if value >= 0 {
        value as int
    } else {
        -(value as int)
    };
    lemma_scaled_share(distance, span, 128);
    lemma_scaled_share(distance, span, 32768);
    assert(value < 0 ==> value * 128 == -(distance * 128));
    assert(value < 0 ==> value * 32768 == -(distance * 32768));
    lemma_below_top(distance, span, 128);
    lemma_below_top(distance, span, 32768);
    if precision == 8 {
        lemma_fundamental_div_mod_converse(distance * 128, 128, distance, 0);
    }
    if precision == 16 {
        lemma_fundamental_div_mod_converse(distance * 32768, 32768, distance, 0);
    }
}

proof fn lemma_below_top(distance: int, span: int, half: int)
    requires
        0 <= distance <= span,
        1 <= span,
        1 <= half,
    ensures
        distance < span ==> distance * half / span < half,
{
    if distance < span {
        lemma_fundamental_div_mod(distance * half, span);
        let q = distance * half / span;
        assert(q < half) by (nonlinear_arith)
            requires
                span * q <= distance * half,
                distance < span,
                1 <= half,
                1 <= span,
        ;
    }
}

/// A sample of a signed output has the bits of the component's sample: one that lies in the
/// range of so many bits is kept.
pub proof fn law_signed_outputs_keep_samples(precision: u32, signed: bool, bits: u8, value: i32)
    requires
        1 <= bits,
        -pow2((bits - 1) as nat) <= value < pow2((bits - 1) as nat),
    ensures
        bits <= 8 ==> <i8 as Jp2Sample>::converted(precision, signed, bits, value) == value,
        bits <= 16 ==> <i16 as Jp2Sample>::converted(precision, signed, bits, value) == value,
{
    if bits <= 16 {
        lemma2_to64();
        let keep = (bits - 1) as u32;
        lemma_shifted_one(keep);
        let span = 1u64 << keep;
        if keep < 15 {
            vstd::arithmetic::power2::lemma_pow2_strictly_increases(keep as nat, 15);
        }
        if keep < 7 {
            vstd::arithmetic::power2::lemma_pow2_strictly_increases(keep as nat, 7);
        }
        lemma_sign_extended(value, keep, span);
    }
}

proof fn lemma_sign_extended(value: i32, keep: u32, span: u64)
    requires
        keep <= 15,
        span == 1u64 << keep,
        span <= 32768,
        -(span as int) <= value < span,
    ensures
        sign_extended(value, (keep + 1) as u8) == value,
{
    let shift = (31 - keep) as u32;
    let limit = span as i64;
    let wide = value as i64;
    assert(((value << shift) >> shift) == value) by (bit_vector)
        requires
            keep <= 15,
            shift == 31 - keep,
            span == 1u64 << keep,
            limit == span as i64,
            wide == value as i64,
            wide < limit,
            wide >= -limit,
    ;
}

/// The planes of an image are the components that are asked for, in the order in which they
/// are asked for, each with a sample for each of the component's; without a selection they
/// are all of them. Samples that fit the output are kept.
pub proof fn law_planes_are_selected_components(
    components: Seq<ComponentView>,
    bits: u8,
    bands: Option<Seq<usize>>,
    out: Planes<u16>,
    k: int,
    i: int,
)
    requires
        planes_of::<u16>(components, bits, bands, Ok(out)),
        components.len() <= usize::MAX,
        bands matches Some(selected) ==> bands_positive(selected),
        0 <= k < out.planes@.len(),
    ensures
        ({
            let index = match bands {
                Some(selected) => selected[k] - 1,
                None => k,
            };
            let component = components[index];
            &&& 0 <= index < components.len()
            &&& out.planes@.len() == (match bands {
                Some(selected) => selected.len(),
                None => components.len(),
            })
            &&& out.planes@[k]@.len() == component.4.len()
            &&& 0 <= i < component.4.len() && component.2 <= 16 && !component.3 && 0
                <= component.4[i] < pow2(component.2 as nat) ==> out.planes@[k]@[i]
                == component.4[i]
        }),
{
    let wanted = wanted_bands(components.len(), bands);
    assert(out.planes@[k]@ == converted_plane::<u16>(components[wanted[k] - 1], bits));
    let component = components[wanted[k] - 1];
    if 0 <= i < component.4.len() && 0 <= component.4[i] < pow2(component.2 as nat) {
        law_fitting_samples_are_kept(component.2, bits, component.4[i]);
    }
    assert(bands_exist(wanted, components.len()));
    assert(1 <= wanted[k] <= components.len());
}

/// Whatever the samples become, they become it one by one: two components with the same
/// sample in a place have the same one there in their planes.
pub proof fn law_samples_convert_one_by_one<T: Jp2Sample>(
    a: ComponentView,
    b: ComponentView,
    bits: u8,
    i: int,
    j: int,
)
    requires
        a.2 == b.2,
        a.3 == b.3,
        0 <= i < a.4.len(),
        0 <= j < b.4.len(),
        a.4[i] == b.4[j],
    ensures
        converted_plane::<T>(a, bits).len() == a.4.len(),
        converted_plane::<T>(a, bits)[i] == converted_plane::<T>(b, bits)[j],
{
}

/// The decoder halves an image as often as the factor of an overview allows, up to four
/// times: where it stops earlier, what is left of the factor is odd.
pub proof fn law_reduction_is_greatest(level: nat)
    requires
        level > 0,
    ensures
        halvings(level) <= 4,
        halvings(level) < 4 ==> (level / pow2(halvings(level))) % 2 == 1,
        level % pow2(halvings(level)) == 0,
{
    lemma2_to64();
    law_reduction_divides_level(level);
    lemma_halvings_are_greatest(level, MAX_OPENJPEG_REDUCE as nat);
}

proof fn lemma_halvings_are_greatest(level: nat, limit: nat)
    requires
        level > 0,
    ensures
        trailing_halvings(level, limit) < limit ==> (level / pow2(trailing_halvings(level, limit)))
            % 2 == 1,
    decreases limit,
{
    lemma2_to64();
    if limit > 0 {
        if level % 2 == 0 {
            let k = trailing_halvings(level / 2, (limit - 1) as nat);
            lemma_halvings_are_greatest(level / 2, (limit - 1) as nat);
            lemma_pow2_unfold(k + 1);
            lemma_pow2_pos(k);
            vstd::arithmetic::div_mod::lemma_div_denominator(level as int, 2, pow2(k) as int);
        } else {
            vstd::arithmetic::div_mod::lemma_div_basics(level as int);
        }
    }
}

/// Components of one to thirty bits convert to every kind of sample, whether they have a sign
/// or not.
pub proof fn law_usual_precisions_convert(precision: u32, signed: bool, bits: u8)
    requires
        1 <= precision <= 30,
        1 <= bits,
    ensures
        <u8 as Jp2Sample>::convertible(precision, signed, bits),
        <u16 as Jp2Sample>::convertible(precision, signed, bits),
        <i8 as Jp2Sample>::convertible(precision, signed, bits),
        <i16 as Jp2Sample>::convertible(precision, signed, bits),
{
}

} // verus!
