//! Pixel windows of a raster.
use crate::arith::max_of;
use vstd::prelude::*;

verus! {

/// A rectangle of pixels.
#[derive(Debug, Clone, Copy, PartialEq, Eq, Structural)]
pub struct WriteWindow {
    pub col_off: usize,
    pub row_off: usize,
    pub width: usize,
    pub height: usize,
}

impl WriteWindow {
    /// The window is not empty and lies within a raster of the given size.
    pub open spec fn within(self, image_width: nat, image_height: nat) -> bool {
        &&& 0 < self.width
        &&& 0 < self.height
        &&& self.col_off + self.width <= image_width
        &&& self.row_off + self.height <= image_height
    }
}

/// Why a window is refused.
#[derive(Debug, Clone, Copy, PartialEq, Eq, Structural)]
pub enum WindowError {
    OriginOutside,
    NotPositive,
    ExceedsImage,
    NoIntersection,
}

/// The window with the given origin and size, which has to lie within the raster.
pub fn window_from_srcwin(
    image_width: u32,
    image_height: u32,
    col: usize,
    row: usize,
    width: usize,
    height: usize,
) -> (result: Result<WriteWindow, WindowError>)
    ensures
        result == (if col >= image_width || row >= image_height {
            Err(WindowError::OriginOutside)
        } else if width == 0 || height == 0 {
            Err(WindowError::NotPositive)
        } else if col + width > image_width || row + height > image_height {
            Err(WindowError::ExceedsImage)
        } else {
            Ok(WriteWindow { col_off: col, row_off: row, width, height })
        }),
        result matches Ok(window) ==> window.within(image_width as nat, image_height as nat),
{
    if col >= image_width as usize || row >= image_height as usize {
        return Err(WindowError::OriginOutside);
    }
    let max_w: usize = image_width as usize - col;
    let max_h: usize = image_height as usize - row;
    if width == 0 || height == 0 {
        return Err(WindowError::NotPositive);
    }
    if width > max_w || height > max_h {
        return Err(WindowError::ExceedsImage);
    }
    Ok(WriteWindow { col_off: col, row_off: row, width, height })
}

/// The window between two corners, the second of which lies behind the window. It is
/// an error if nothing lies between them.
pub fn window_between(
    col_off: usize,
    row_off: usize,
    col_end: usize,
    row_end: usize,
) -> (result: Result<WriteWindow, WindowError>)
    ensures
        result == (if col_end <= col_off || row_end <= row_off {
            Err(WindowError::NoIntersection)
        } else {
            Ok(
                WriteWindow {
                    col_off,
                    row_off,
                    width: (col_end - col_off) as usize,
                    height: (row_end - row_off) as usize,
                },
            )
        }),
{
    if col_end <= col_off || row_end <= row_off {
        return Err(WindowError::NoIntersection);
    }
    Ok(WriteWindow { col_off, row_off, width: col_end - col_off, height: row_end - row_off })
}

/// The window in pixels of an overview that is `scale` times smaller.
pub open spec fn scaled_window(window: WriteWindow, scale: nat) -> WriteWindow {
    let factor = max_of(scale as int, 1);
    WriteWindow {
        col_off: (window.col_off as int / factor) as usize,
        row_off: (window.row_off as int / factor) as usize,
        width: (window.width as int / factor) as usize,
        height: (window.height as int / factor) as usize,
    }
}

/// Scales a window down for reads of an overview.
pub fn scale_window(window: &WriteWindow, scale: u32) -> (scaled: WriteWindow)
    ensures
        scaled == scaled_window(*window, scale as nat),
{
    let factor: usize = if scale < 1 {
        1
    } else {
        scale as usize
    };
    WriteWindow {
        col_off: window.col_off / factor,
        row_off: window.row_off / factor,
        width: window.width / factor,
        height: window.height / factor,
    }
}

/// A window inside the raster, scaled down, ends within the scaled raster.
pub proof fn law_scaled_window_within(
    window: WriteWindow,
    image_width: nat,
    image_height: nat,
    scale: nat,
)
    requires
        scale > 0,
        window.within(image_width, image_height),
    ensures
        ({
            let scaled = scaled_window(window, scale);
            &&& scaled.col_off + scaled.width <= image_width / scale
            &&& scaled.row_off + scaled.height <= image_height / scale
        }),
{
    lemma_scaled_end(window.col_off as int, window.width as int, image_width as int, scale as int);
    lemma_scaled_end(window.row_off as int, window.height as int, image_height as int, scale as int);
}

proof fn lemma_scaled_end(offset: int, length: int, total: int, scale: int)
    requires
        scale > 0,
        0 <= offset,
        0 <= length,
        offset + length <= total,
    ensures
        0 <= offset / scale <= offset,
        0 <= length / scale <= length,
        offset / scale + length / scale <= total / scale,
{
    vstd::arithmetic::div_mod::lemma_fundamental_div_mod(offset, scale);
    vstd::arithmetic::div_mod::lemma_fundamental_div_mod(length, scale);
    vstd::arithmetic::div_mod::lemma_fundamental_div_mod(total, scale);
    let a = offset / scale;
    let b = length / scale;
    let t = total / scale;
    assert(a + b <= t) by (nonlinear_arith)
        requires
            scale > 0,
            scale * a <= offset,
            scale * b <= length,
            offset + length <= total,
            total < scale * t + scale,
    ;
    assert(0 <= a <= offset) by (nonlinear_arith)
        requires
            scale > 0,
            0 <= offset,
            offset < scale * a + scale,
            scale * a <= offset,
    ;
    assert(0 <= b <= length) by (nonlinear_arith)
        requires
            scale > 0,
            0 <= length,
            length < scale * b + scale,
            scale * b <= length,
    ;
}

/// A scaled window begins with the pixel of the smaller layer that holds the window's first
/// pixel, and has as many pixels as fit it whole.
pub proof fn law_scaled_window_shares_corner(window: WriteWindow, scale: nat)
    requires
        scale > 0,
    ensures
        ({
            let scaled = scaled_window(window, scale);
            &&& scaled.col_off * scale <= window.col_off < (scaled.col_off + 1) * scale
            &&& scaled.row_off * scale <= window.row_off < (scaled.row_off + 1) * scale
            &&& scaled.width * scale <= window.width < (scaled.width + 1) * scale
            &&& scaled.height * scale <= window.height < (scaled.height + 1) * scale
        }),
{
    lemma_share(window.col_off as int, scale as int);
    lemma_share(window.row_off as int, scale as int);
    lemma_share(window.width as int, scale as int);
    lemma_share(window.height as int, scale as int);
}

/// A quotient lies next to the dividend.
pub proof fn lemma_share(length: int, scale: int)
    requires
        0 <= length,
        0 < scale,
    ensures
        0 <= length / scale <= length,
        (length / scale) * scale <= length < (length / scale + 1) * scale,
{
    vstd::arithmetic::div_mod::lemma_fundamental_div_mod(length, scale);
    let q = length / scale;
    assert(scale * q == q * scale) by (nonlinear_arith);
    assert((q + 1) * scale == q * scale + scale) by (nonlinear_arith);
    lemma_scaled_end(length, 0, length, scale);
}

/// A window that lies within an image has pixels, and each of them is one of the image.
pub proof fn law_windows_hold_pixels_of_the_image(
    window: WriteWindow,
    image_width: nat,
    image_height: nat,
    x: int,
    y: int,
)
    requires
        window.within(image_width, image_height),
    ensures
        window.width > 0 && window.height > 0,
        window.col_off <= x < window.col_off + window.width ==> 0 <= x < image_width,
        window.row_off <= y < window.row_off + window.height ==> 0 <= y < image_height,
{
}

} // verus!
