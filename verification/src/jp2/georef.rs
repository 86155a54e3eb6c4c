//! What places a JPEG 2000 image on the ground.
use crate::geo::{
    extract_jp2_xml, first_xml, gml_problem, is_gml_grid, parse_gmljp2, GmlGrid,
};
use crate::search::text_bytes;
use vstd::prelude::*;

verus! {

/// What places an image.
#[derive(Debug, Clone, Copy, PartialEq, Eq, Structural)]
pub enum Jp2Georef {
    /// The GML metadata of the image.
    Gml { epsg: u16 },
    /// A world file beside the image, with the coordinate reference of a `.prj` file
    /// where there is one.
    WorldFile { prj_epsg: Option<u16> },
}

/// The GML metadata of an image, with the place that it tells; none where the image has
/// no readable metadata.
pub fn gml_metadata(data: &[u8]) -> (found: Option<(String, GmlGrid)>)
    ensures
        match found {
            Some((xml, grid)) => {
                &&& first_xml(data@, 0, data@.len() as int) matches Ok(Some(payload))
                    && vstd::utf8::valid_utf8(payload) && xml@ == vstd::utf8::decode_utf8(payload)
                &&& gml_problem(vstd::utf8::encode_utf8(xml@)) is None
                &&& is_gml_grid(vstd::utf8::encode_utf8(xml@), grid)
            },
            None => match first_xml(data@, 0, data@.len() as int) {
                Ok(Some(payload)) => vstd::utf8::valid_utf8(payload) ==> gml_problem(
                    vstd::utf8::encode_utf8(vstd::utf8::decode_utf8(payload)),
                ) is Some,
                _ => true,
            },
        },
{
    match extract_jp2_xml(data) {
        Err(_) => None,
        Ok(xml) => {
            let text: &str = xml.as_str();
            assert(text_bytes(text) == vstd::utf8::encode_utf8(xml@));
            match parse_gmljp2(text) {
                Err(_) => None,
                Ok(grid) => Some((xml, grid)),
            }
        },
    }
}

/// Chooses what places an image: its metadata go before a world file, which a `.prj` file
/// may complete. Without either the image has no place.
pub fn resolve_georef(gml_epsg: Option<u16>, world_file: bool, prj_epsg: Option<u16>) -> (georef:
    Option<Jp2Georef>)
    ensures
        georef == (match gml_epsg {
            Some(epsg) => Some(Jp2Georef::Gml { epsg }),
            None => if world_file {
                Some(Jp2Georef::WorldFile { prj_epsg })
            } else {
                None
            },
        }),
{
    match gml_epsg {
        Some(epsg) => Some(Jp2Georef::Gml { epsg }),
        None => if world_file {
            Some(Jp2Georef::WorldFile { prj_epsg })
        } else {
            None
        },
    }
}

} // verus!
