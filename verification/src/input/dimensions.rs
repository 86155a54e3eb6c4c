//! Size of a raster of either format.
use crate::jp2::decode::Jp2Error;
use crate::jp2::profile::{raster_of, Jp2Raster};
use vstd::prelude::*;

verus! {

/// A raster that has been opened: a GeoTIFF with its size and band count, or the bytes
/// of a JPEG 2000 image.
pub enum OpenedRaster<'a> {
    GeoTiff { width: u32, height: u32, bands: u32 },
    Jp2 { data: &'a [u8] },
}

/// Width, height and band count of a raster.
pub fn input_dimensions(raster: &OpenedRaster<'_>) -> (result: Result<(u32, u32, u32), Jp2Error>)
    ensures
        result == (match *raster {
            OpenedRaster::GeoTiff { width, height, bands } => Ok((width, height, bands)),
            OpenedRaster::Jp2 { data } => match raster_of(data@) {
                Ok(layout) => Ok((layout.width, layout.height, layout.bands)),
                Err(error) => Err(error),
            },
        }),
{
    match raster {
        OpenedRaster::GeoTiff { width, height, bands } => Ok((*width, *height, *bands)),
        OpenedRaster::Jp2 { data } => match Jp2Raster::open(data) {
            Ok(layout) => Ok((layout.width, layout.height, layout.bands)),
            Err(error) => Err(error),
        },
    }
}

} // verus!
