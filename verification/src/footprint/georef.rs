//! What places the pixels of a footprint on the ground.
use crate::crop::WriteWindow;
use vstd::prelude::*;

verus! {

/// How pixels are placed.
#[derive(Debug, Clone, Copy, PartialEq, Eq, Structural)]
pub enum FootprintGeorefKind {
    Affine,
    GcpGrid,
    GcpTps,
    GcpAffine,
    Rpc,
    Pixel,
}

/// The name of a way in which pixels are placed.
pub open spec fn georef_label(kind: FootprintGeorefKind) -> Seq<char> {
    match kind {
        FootprintGeorefKind::Affine => "affine"@,
        FootprintGeorefKind::GcpGrid => "gcp_grid"@,
        FootprintGeorefKind::GcpTps => "gcp_tps"@,
        FootprintGeorefKind::GcpAffine => "gcp_affine"@,
        FootprintGeorefKind::Rpc => "rpc"@,
        FootprintGeorefKind::Pixel => "pixel"@,
    }
}

impl FootprintGeorefKind {
    /// The name under which a footprint reports how it was placed.
    pub fn label(self) -> (label: &'static str)
        ensures
            label@ == georef_label(self),
    {
        match self {
            FootprintGeorefKind::Affine => "affine",
            FootprintGeorefKind::GcpGrid => "gcp_grid",
            FootprintGeorefKind::GcpTps => "gcp_tps",
            FootprintGeorefKind::GcpAffine => "gcp_affine",
            FootprintGeorefKind::Rpc => "rpc",
            FootprintGeorefKind::Pixel => "pixel",
        }
    }
}

/// What a source offers to place its pixels by.
#[derive(Debug, Clone, Copy, PartialEq, Eq, Structural)]
pub struct GeorefOffers {
    /// The transform of the file.
    pub file_transform: bool,
    /// The affine transform of the profile.
    pub profile_affine: bool,
    /// The transformation matrix of the profile.
    pub profile_matrix: bool,
    /// The transformation matrix of the file.
    pub file_matrix: bool,
    /// A pixel scale and a tie point to anchor it.
    pub anchored_scale: bool,
    /// Rational polynomial coefficients.
    pub rpc: bool,
    /// Tie points that fill a grid.
    pub grid: bool,
    /// Tie points that a thin plate spline fits.
    pub spline: bool,
    /// Tie points that an affine transform fits.
    pub fitted: bool,
}

/// What places the pixels.
#[derive(Debug, Clone, Copy, PartialEq, Eq, Structural)]
pub enum GeorefOrigin {
    FileTransform,
    ProfileAffine,
    ProfileMatrix,
    FileMatrix,
    AnchoredScale,
    Rpc,
    Grid,
    Spline,
    Fitted,
    Pixel,
}

/// How pixels are placed by tie points alone.
pub open spec fn tiepoint_origin(offers: GeorefOffers) -> GeorefOrigin {
    if offers.grid {
        GeorefOrigin::Grid
    } else if offers.spline {
        GeorefOrigin::Spline
    } else if offers.fitted {
        GeorefOrigin::Fitted
    } else {
        GeorefOrigin::Pixel
    }
}

/// What places the pixels of a file: transforms go before coefficients, and those before
/// tie points.
pub open spec fn file_origin(offers: GeorefOffers) -> GeorefOrigin {
    if offers.file_transform {
        GeorefOrigin::FileTransform
    } else if offers.profile_affine {
        GeorefOrigin::ProfileAffine
    } else if offers.profile_matrix {
        GeorefOrigin::ProfileMatrix
    } else if offers.file_matrix {
        GeorefOrigin::FileMatrix
    } else if offers.anchored_scale {
        GeorefOrigin::AnchoredScale
    } else if offers.rpc {
        GeorefOrigin::Rpc
    } else {
        tiepoint_origin(offers)
    }
}

/// What places the pixels of a profile without a file.
pub open spec fn profile_origin(offers: GeorefOffers) -> GeorefOrigin {
    if offers.profile_affine {
        GeorefOrigin::ProfileAffine
    } else if offers.profile_matrix {
        GeorefOrigin::ProfileMatrix
    } else {
        tiepoint_origin(offers)
    }
}

/// The way in which an origin places pixels.
pub open spec fn kind_of_origin(origin: GeorefOrigin) -> FootprintGeorefKind {
    match origin {
        GeorefOrigin::Rpc => FootprintGeorefKind::Rpc,
        GeorefOrigin::Grid => FootprintGeorefKind::GcpGrid,
        GeorefOrigin::Spline => FootprintGeorefKind::GcpTps,
        GeorefOrigin::Fitted => FootprintGeorefKind::GcpAffine,
        GeorefOrigin::Pixel => FootprintGeorefKind::Pixel,
        _ => FootprintGeorefKind::Affine,
    }
}

fn resolve_tiepoints(offers: &GeorefOffers) -> (resolved: (GeorefOrigin, FootprintGeorefKind))
    ensures
        resolved.0 == tiepoint_origin(*offers),
        resolved.1 == kind_of_origin(resolved.0),
{
    if offers.grid {
        (GeorefOrigin::Grid, FootprintGeorefKind::GcpGrid)
    } else if offers.spline {
        (GeorefOrigin::Spline, FootprintGeorefKind::GcpTps)
    } else if offers.fitted {
        (GeorefOrigin::Fitted, FootprintGeorefKind::GcpAffine)
    } else {
        (GeorefOrigin::Pixel, FootprintGeorefKind::Pixel)
    }
}

/// Chooses what places the pixels of a file.
pub fn resolve_footprint_georef(offers: &GeorefOffers) -> (resolved: (
    GeorefOrigin,
    FootprintGeorefKind,
))
    ensures
        resolved.0 == file_origin(*offers),
        resolved.1 == kind_of_origin(resolved.0),
{
    if offers.file_transform {
        (GeorefOrigin::FileTransform, FootprintGeorefKind::Affine)
    } else if offers.profile_affine {
        (GeorefOrigin::ProfileAffine, FootprintGeorefKind::Affine)
    } else if offers.profile_matrix {
        (GeorefOrigin::ProfileMatrix, FootprintGeorefKind::Affine)
    } else if offers.file_matrix {
        (GeorefOrigin::FileMatrix, FootprintGeorefKind::Affine)
    } else if offers.anchored_scale {
        (GeorefOrigin::AnchoredScale, FootprintGeorefKind::Affine)
    } else if offers.rpc {
        (GeorefOrigin::Rpc, FootprintGeorefKind::Rpc)
    } else {
        resolve_tiepoints(offers)
    }
}

/// Chooses what places the pixels of a profile without a file.
pub fn resolve_footprint_georef_profile(offers: &GeorefOffers) -> (resolved: (
    GeorefOrigin,
    FootprintGeorefKind,
))
    ensures
        resolved.0 == profile_origin(*offers),
        resolved.1 == kind_of_origin(resolved.0),
{
    if offers.profile_affine {
        (GeorefOrigin::ProfileAffine, FootprintGeorefKind::Affine)
    } else if offers.profile_matrix {
        (GeorefOrigin::ProfileMatrix, FootprintGeorefKind::Affine)
    } else {
        resolve_tiepoints(offers)
    }
}

/// How the window of a footprint moves its pixels.
#[derive(Debug, Clone, Copy, PartialEq, Eq, Structural)]
pub enum WindowShift {
    /// The transform starts at this pixel.
    Transform { col_off: usize, row_off: usize },
    /// The offsets are added to each pixel before it is placed.
    Pixels { col_off: usize, row_off: usize },
}

/// Whether pixels are placed by an affine transform.
pub open spec fn places_affinely(kind: FootprintGeorefKind) -> bool {
    kind == FootprintGeorefKind::Affine || kind == FootprintGeorefKind::GcpAffine
}

/// Where a window moves pixels: an affine transform takes the window in, everything else
/// is asked for the pixels of the whole raster.
pub fn window_shift(kind: FootprintGeorefKind, window: Option<WriteWindow>) -> (shift: WindowShift)
    ensures
        shift == (match window {
            None => WindowShift::Pixels { col_off: 0, row_off: 0 },
            Some(window) => if places_affinely(kind) {
                WindowShift::Transform { col_off: window.col_off, row_off: window.row_off }
            } else {
                WindowShift::Pixels { col_off: window.col_off, row_off: window.row_off }
            },
        }),
{
    match window {
        None => WindowShift::Pixels { col_off: 0, row_off: 0 },
        Some(window) => match kind {
            FootprintGeorefKind::Affine | FootprintGeorefKind::GcpAffine => {
                WindowShift::Transform { col_off: window.col_off, row_off: window.row_off }
            },
            _ => WindowShift::Pixels { col_off: window.col_off, row_off: window.row_off },
        },
    }
}

/// What places the pixels of a file: each offer goes before the ones behind it, and is taken
/// only where it is made. A transform goes before coefficients, and those before tie points.
pub proof fn law_georef_follows_precedence(offers: GeorefOffers)
    ensures
        ({
            let origin = file_origin(offers);
            let affine = offers.file_transform || offers.profile_affine || offers.profile_matrix
                || offers.file_matrix || offers.anchored_scale;
            &&& origin is FileTransform <==> offers.file_transform
            &&& origin is ProfileAffine <==> !offers.file_transform && offers.profile_affine
            &&& origin is ProfileMatrix <==> !offers.file_transform && !offers.profile_affine
                && offers.profile_matrix
            &&& origin is FileMatrix ==> offers.file_matrix && !offers.profile_matrix
            &&& origin is AnchoredScale ==> offers.anchored_scale && !offers.file_matrix
            &&& kind_of_origin(origin) is Affine <==> affine
            &&& kind_of_origin(origin) is Rpc <==> !affine && offers.rpc
            &&& kind_of_origin(origin) is GcpGrid <==> !affine && !offers.rpc && offers.grid
            &&& kind_of_origin(origin) is GcpTps <==> !affine && !offers.rpc && !offers.grid
                && offers.spline
            &&& kind_of_origin(origin) is GcpAffine <==> !affine && !offers.rpc && !offers.grid
                && !offers.spline && offers.fitted
            &&& kind_of_origin(origin) is Pixel <==> !affine && !offers.rpc && !offers.grid
                && !offers.spline && !offers.fitted
        }),
{
}

/// What places the pixels of a profile without a file: its transform or matrix, else tie
/// points, else nothing.
pub proof fn law_profile_georef_follows_precedence(offers: GeorefOffers)
    ensures
        ({
            let kind = kind_of_origin(profile_origin(offers));
            let affine = offers.profile_affine || offers.profile_matrix;
            &&& kind is Affine <==> affine
            &&& kind is GcpGrid <==> !affine && offers.grid
            &&& kind is GcpTps <==> !affine && !offers.grid && offers.spline
            &&& kind is GcpAffine <==> !affine && !offers.grid && !offers.spline && offers.fitted
            &&& kind is Pixel <==> !affine && !offers.grid && !offers.spline && !offers.fitted
            &&& profile_origin(offers) is ProfileAffine <==> offers.profile_affine
        }),
{
}

/// No two ways in which pixels are placed have the same name.
pub proof fn law_placings_have_their_own_names(
    one: FootprintGeorefKind,
    other: FootprintGeorefKind,
)
    ensures
        georef_label(one) == georef_label(other) ==> one == other,
{
    reveal_strlit("affine");
    reveal_strlit("gcp_grid");
    reveal_strlit("gcp_tps");
    reveal_strlit("gcp_affine");
    reveal_strlit("rpc");
    reveal_strlit("pixel");
    assert("affine"@.len() == 6 && "gcp_grid"@.len() == 8 && "gcp_tps"@.len() == 7
        && "gcp_affine"@.len() == 10 && "rpc"@.len() == 3 && "pixel"@.len() == 5);
}

/// Pixels are placed by an affine transform if the file gives one, or one is fitted to its
/// control points, and in no other case.
pub proof fn law_affine_placings(kind: FootprintGeorefKind)
    ensures
        places_affinely(kind) <==> kind is Affine || kind is GcpAffine,
        kind is Rpc || kind is Pixel || kind is GcpGrid || kind is GcpTps ==> !places_affinely(
            kind,
        ),
{
}

} // verus!
