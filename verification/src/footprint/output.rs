//! What a footprint is given back as.
use crate::footprint::georef::{georef_label, FootprintGeorefKind};
use crate::footprint::mask::ValidityMask;
use crate::footprint::options::{source_label, ResolvedValiditySource};
use crate::footprint::trace::{
    measurable, outlines, ring_values, rings_points, trace_rings, Bitmap, Side,
};
use vstd::prelude::*;
use vstd::string::StringExecFns;

verus! {

/// The form of a footprint's geometry.
#[derive(Debug, Clone, Copy, PartialEq, Eq, Structural)]
pub enum FootprintOutputFormat {
    GeoJson,
    Wkt,
    WktFlat,
}

/// A footprint: its geometry, and what it was made from.
#[derive(Debug)]
pub struct FootprintResult {
    /// The geometry in the form that was asked for.
    pub body: String,
    /// The geometry as GeoJSON.
    pub geojson: String,
    pub validity_source: String,
    pub georef_source: String,
    pub ring_count: usize,
    pub vertex_count: usize,
}

/// The corners of a raster, one after the other and back to the first, in half pixels.
pub open spec fn extent_corners(width: int, height: int) -> Seq<(int, int)> {
    seq![(0, 0), (2 * width, 0), (2 * width, 2 * height), (0, 2 * height), (0, 0)]
}

/// The ring around a whole raster, in half pixels.
pub fn full_extent_pixel_ring(width: usize, height: usize) -> (ring: Vec<(i64, i64)>)
    requires
        2 * width <= i64::MAX,
        2 * height <= i64::MAX,
    ensures
        ring@.map_values(|point: (i64, i64)| (point.0 as int, point.1 as int)) == extent_corners(
            width as int,
            height as int,
        ),
{
    let right: i64 = 2 * width as i64;
    let bottom: i64 = 2 * height as i64;
    let mut ring: Vec<(i64, i64)> = Vec::new();
    ring.push((0, 0));
    ring.push((right, 0));
    ring.push((right, bottom));
    ring.push((0, bottom));
    ring.push((0, 0));
    assert(ring@.map_values(|point: (i64, i64)| (point.0 as int, point.1 as int))
        =~= extent_corners(width as int, height as int));
    ring
}

/// The pixels of a mask as a raster to be traced.
pub open spec fn bitmap_of(mask: ValidityMask) -> Bitmap {
    Bitmap { valid: mask.content(), width: mask.width as nat, height: mask.height as nat }
}

/// Whether every pixel of a mask is valid.
pub open spec fn whole(mask: ValidityMask) -> bool {
    forall|r: int, c: int| mask.has(r, c) ==> #[trigger] mask.at(r, c) != 0
}

/// Whether no pixel of a mask is valid.
pub open spec fn empty(mask: ValidityMask) -> bool {
    forall|r: int, c: int| mask.has(r, c) ==> #[trigger] mask.at(r, c) == 0
}

/// The rings of a footprint in half pixels: the corners of the raster where every pixel
/// is valid, none where none is, and otherwise the rings around the valid pixels.
pub fn pixel_rings(mask: &ValidityMask) -> (rings: Vec<Vec<(i64, i64)>>)
    requires
        mask.well_formed(),
        measurable(mask.width as int, mask.height as int),
    ensures
        whole(*mask) ==> ring_values(rings@) == seq![
            extent_corners(mask.width as int, mask.height as int),
        ],
        !whole(*mask) && empty(*mask) ==> rings@.len() == 0,
        !whole(*mask) && !empty(*mask) ==> exists|sides: Seq<Seq<Side>>| #[trigger]
            outlines(bitmap_of(*mask), sides) && ring_values(rings@) == rings_points(sides),
        forall|k: int| 0 <= k < rings@.len() ==> (#[trigger] rings@[k])@.len() >= 3,
{
    if mask.all_valid() {
        proof {
            lemma_sides_measurable(mask.width as int, mask.height as int);
        }
        let ring = full_extent_pixel_ring(mask.width, mask.height);
        let mut rings: Vec<Vec<(i64, i64)>> = Vec::new();
        let ghost values = ring@.map_values(|point: (i64, i64)| (point.0 as int, point.1 as int));
        rings.push(ring);
        assert(ring_values(rings@)[0] =~= values);
        assert(ring_values(rings@) =~= seq![
            extent_corners(mask.width as int, mask.height as int),
        ]);
        rings
    } else if mask.none_valid() {
        Vec::new()
    } else {
        let rings = trace_rings(mask.as_slice(), mask.width, mask.height);
        proof {
            let map = Bitmap {
                valid: mask.content(),
                width: mask.width as nat,
                height: mask.height as nat,
            };
            let sides = choose|sides: Seq<Seq<Side>>| #[trigger]
                outlines(map, sides) && ring_values(rings@) == rings_points(sides);
            assert(outlines(bitmap_of(*mask), sides));
        }
        rings
    }
}

proof fn lemma_sides_measurable(width: int, height: int)
    requires
        0 <= width,
        0 <= height,
        measurable(width, height),
    ensures
        2 * width <= i64::MAX,
        2 * height <= i64::MAX,
{
    assert((height + 2) * (width + 2) >= 2 * (width + 2)) by (nonlinear_arith)
        requires
            height >= 0,
            width >= 0,
    ;
    assert((height + 2) * (width + 2) >= 2 * (height + 2)) by (nonlinear_arith)
        requires
            height >= 0,
            width >= 0,
    ;
}

/// How many points rings of these lengths have, when the last point of each is its first
/// one again.
pub open spec fn vertices(rings: Seq<Vec<String>>) -> nat
    decreases rings.len(),
{
    if rings.len() == 0 {
        0
    } else {
        vertices(rings.drop_last()) + (if rings.last()@.len() == 0 {
            0
        } else {
            (rings.last()@.len() - 1) as nat
        })
    }
}

proof fn lemma_vertices(rings: Seq<Vec<String>>, count: int)
    requires
        0 <= count <= rings.len(),
    ensures
        vertices(rings.take(count)) <= vertices(rings),
    decreases rings.len(),
{
    if count == rings.len() {
        assert(rings.take(count) =~= rings);
    } else {
        lemma_vertices(rings.drop_last(), count);
        assert(rings.drop_last().take(count) =~= rings.take(count));
    }
}

fn vertex_count(rings: &Vec<Vec<String>>) -> (count: usize)
    requires
        vertices(rings@) <= usize::MAX,
    ensures
        count == vertices(rings@),
{
    let mut count: usize = 0;
    let mut i: usize = 0;
    while i < rings.len()
        invariant
            i <= rings@.len(),
            vertices(rings@) <= usize::MAX,
            count == vertices(rings@.take(i as int)),
        decreases rings@.len() - i,
    {
        proof {
            lemma_vertices(rings@, i + 1);
            assert(rings@.take(i + 1).drop_last() =~= rings@.take(i as int));
        }
        let length: usize = rings[i].len();
        if length > 0 {
            count = count + (length - 1);
        }
        i = i + 1;
    }
    assert(rings@.take(i as int) =~= rings@);
    count
}

/// Texts with a separator between each two of them.
pub open spec fn joined_texts(texts: Seq<Seq<char>>, separator: Seq<char>) -> Seq<char>
    decreases texts.len(),
{
    if texts.len() == 0 {
        Seq::empty()
    } else if texts.len() == 1 {
        texts[0]
    } else {
        joined_texts(texts.drop_last(), separator) + separator + texts.last()
    }
}

/// The points of a ring as text.
pub open spec fn point_texts(ring: Seq<String>) -> Seq<Seq<char>> {
    ring.map_values(|text: String| text@)
}

/// The points of rings as text, one ring behind the other.
pub open spec fn all_point_texts(rings: Seq<Vec<String>>) -> Seq<Seq<char>>
    decreases rings.len(),
{
    if rings.len() == 0 {
        Seq::empty()
    } else {
        all_point_texts(rings.drop_last()) + point_texts(rings.last()@)
    }
}

fn join_texts(texts: &Vec<String>, separator: &str) -> (joined: String)
    ensures
        joined@ == joined_texts(point_texts(texts@), separator@),
{
    let mut joined = String::new();
    let ghost all = point_texts(texts@);
    let mut i: usize = 0;
    while i < texts.len()
        invariant
            i <= texts@.len(),
            all == point_texts(texts@),
            joined@ == joined_texts(all.take(i as int), separator@),
        decreases texts@.len() - i,
    {
        let ghost before = joined@;
        if i > 0 {
            joined.append(separator);
        }
        joined.append(texts[i].as_str());
        proof {
            let next = all.take(i + 1);
            assert(next.drop_last() =~= all.take(i as int));
            assert(next.last() == texts@[i as int]@);
            if i == 0 {
                assert(before + texts@[0]@ =~= texts@[0]@);
            }
        }
        i = i + 1;
    }
    assert(all.take(i as int) =~= all);
    joined
}

/// The points of a ring in well-known text. A point is given as the text of its two
/// coordinates.
pub fn ring_to_wkt_coords(ring: &Vec<String>) -> (text: String)
    ensures
        text@ == joined_texts(point_texts(ring@), ", "@),
{
    join_texts(ring, ", ")
}

/// Each ring as a polygon: the points in the brackets of the ring, and those of the polygon.
pub open spec fn bracketed_rings(rings: Seq<Vec<String>>) -> Seq<Seq<char>> {
    rings.map_values(
        |ring: Vec<String>| "(("@ + joined_texts(point_texts(ring@), ", "@) + "))"@,
    )
}

/// Rings in well-known text: a polygon, or several. A ring stands in brackets of its own
/// within those of its polygon.
pub open spec fn wkt_of(rings: Seq<Vec<String>>) -> Seq<char> {
    if rings.len() == 0 {
        "POLYGON EMPTY"@
    } else if rings.len() == 1 {
        "POLYGON(("@ + joined_texts(point_texts(rings[0]@), ", "@) + "))"@
    } else {
        "MULTIPOLYGON("@ + joined_texts(bracketed_rings(rings), ", "@) + ")"@
    }
}

/// Rings in well-known text.
pub fn rings_to_wkt(rings: &Vec<Vec<String>>) -> (text: String)
    ensures
        text@ == wkt_of(rings@),
{
    if rings.len() == 0 {
        return "POLYGON EMPTY".to_owned();
    }
    if rings.len() == 1 {
        let mut text = "POLYGON((".to_owned();
        text.append(ring_to_wkt_coords(&rings[0]).as_str());
        text.append("))");
        return text;
    }
    let mut parts: Vec<String> = Vec::new();
    let mut i: usize = 0;
    while i < rings.len()
        invariant
            i <= rings@.len(),
            parts@.len() == i,
            forall|j: int|
                0 <= j < i ==> (#[trigger] parts@[j])@ == "(("@ + joined_texts(
                    point_texts(rings@[j]@),
                    ", "@,
                ) + "))"@,
        decreases rings@.len() - i,
    {
        let mut part = "((".to_owned();
        part.append(ring_to_wkt_coords(&rings[i]).as_str());
        part.append("))");
        parts.push(part);
        i = i + 1;
    }
    assert(point_texts(parts@) =~= bracketed_rings(rings@));
    let mut text = "MULTIPOLYGON(".to_owned();
    text.append(join_texts(&parts, ", ").as_str());
    text.append(")");
    text
}

/// The points of all rings, with nothing but blanks between them.
pub fn rings_to_flat_coords(rings: &Vec<Vec<String>>) -> (text: String)
    ensures
        text@ == joined_texts(all_point_texts(rings@), " "@),
{
    let mut points: Vec<String> = Vec::new();
    let mut i: usize = 0;
    while i < rings.len()
        invariant
            i <= rings@.len(),
            point_texts(points@) == all_point_texts(rings@.take(i as int)),
        decreases rings@.len() - i,
    {
        let ring = &rings[i];
        let ghost before = point_texts(points@);
        let mut j: usize = 0;
        while j < ring.len()
            invariant
                j <= ring@.len(),
                point_texts(points@) == before + point_texts(ring@).take(j as int),
            decreases ring@.len() - j,
        {
            let ghost earlier = points@;
            points.push(ring[j].clone());
            assert(point_texts(points@) =~= point_texts(earlier).push(ring@[j as int]@));
            assert(point_texts(ring@).take(j + 1) =~= point_texts(ring@).take(j as int).push(
                ring@[j as int]@,
            ));
            assert(point_texts(points@) =~= before + point_texts(ring@).take(j + 1));
            j = j + 1;
        }
        proof {
            assert(point_texts(ring@).take(j as int) =~= point_texts(ring@));
            assert(rings@.take(i + 1).drop_last() =~= rings@.take(i as int));
        }
        i = i + 1;
    }
    assert(rings@.take(i as int) =~= rings@);
    join_texts(&points, " ")
}

/// The reference that the coordinates of a footprint are given in: pixels where nothing
/// places them, and otherwise longitude and latitude.
pub fn footprint_crs(kind: FootprintGeorefKind, native_epsg: Option<u32>) -> (crs: (
    &'static str,
    Option<u32>,
))
    ensures
        crs.0@ == (if kind == FootprintGeorefKind::Pixel {
            "pixel"@
        } else {
            "EPSG:4326"@
        }),
        crs.1 == (if kind == FootprintGeorefKind::Pixel {
            native_epsg
        } else {
            Some(4326u32)
        }),
{
    match kind {
        FootprintGeorefKind::Pixel => ("pixel", native_epsg),
        _ => ("EPSG:4326", Some(4326)),
    }
}

/// Puts a footprint together from its GeoJSON and its rings, whose points are given as
/// the text of their coordinates.
pub fn finish_footprint(
    geojson: String,
    rings: &Vec<Vec<String>>,
    source: ResolvedValiditySource,
    kind: FootprintGeorefKind,
    format: FootprintOutputFormat,
) -> (result: FootprintResult)
    requires
        vertices(rings@) <= usize::MAX,
    ensures
        result.body@ == (match format {
            FootprintOutputFormat::GeoJson => geojson@,
            FootprintOutputFormat::Wkt => wkt_of(rings@),
            FootprintOutputFormat::WktFlat => joined_texts(all_point_texts(rings@), " "@),
        }),
        result.geojson@ == geojson@,
        result.validity_source@ == source_label(source),
        result.georef_source@ == georef_label(kind),
        result.ring_count == rings@.len(),
        result.vertex_count == vertices(rings@),
{
    let body = match format {
        FootprintOutputFormat::GeoJson => geojson.clone(),
        FootprintOutputFormat::Wkt => rings_to_wkt(rings),
        FootprintOutputFormat::WktFlat => rings_to_flat_coords(rings),
    };
    FootprintResult {
        body,
        geojson,
        validity_source: source.label().to_owned(),
        georef_source: kind.label().to_owned(),
        ring_count: rings.len(),
        vertex_count: vertex_count(rings),
    }
}

/// A raster whose pixels are all valid has the ring of its corners: it is closed, its points
/// are corners of the raster in half pixels, each of the four occurs, and each side of the
/// ring runs along one axis.
pub proof fn law_full_extent_is_the_raster(width: int, height: int)
    requires
        0 < width,
        0 < height,
    ensures
        ({
            let ring = extent_corners(width, height);
            &&& ring.first() == ring.last()
            &&& forall|x: int, y: int|
                (x == 0 || x == width) && (y == 0 || y == height) ==> #[trigger] ring.contains(
                    (2 * x, 2 * y),
                )
            &&& forall|i: int|
                0 <= i < ring.len() ==> {
                    &&& (#[trigger] ring[i]).0 == 0 || ring[i].0 == width + width
                    &&& ring[i].1 == 0 || ring[i].1 == height + height
                }
            &&& forall|i: int|
                0 <= i < ring.len() - 1 ==> ((#[trigger] ring[i]).0 == ring[i + 1].0) != (
                ring[i].1 == ring[i + 1].1)
        }),
{
    let ring = extent_corners(width, height);
    assert(ring[0] == (0int, 0int));
    assert(ring[1] == (2 * width, 0int));
    assert(ring[2] == (2 * width, 2 * height));
    assert(ring[3] == (0int, 2 * height));
    assert forall|x: int, y: int|
        (x == 0 || x == width) && (y == 0 || y == height) implies #[trigger] ring.contains(
        (2 * x, 2 * y),
    ) by {
        if x == 0 && y == 0 {
            assert(ring[0] == (2 * x, 2 * y));
        } else if x == 0 {
            assert(ring[3] == (2 * x, 2 * y));
        } else if y == 0 {
            assert(ring[1] == (2 * x, 2 * y));
        } else {
            assert(ring[2] == (2 * x, 2 * y));
        }
    }
}

/// Texts that are joined all occur, in their order, with a separator between neighbors.
pub proof fn law_joined_texts_hold_each(texts: Seq<Seq<char>>, separator: Seq<char>, k: int)
    requires
        0 <= k < texts.len(),
    ensures
        exists|before: Seq<char>, behind: Seq<char>|
            {
                &&& joined_texts(texts, separator) == #[trigger] (before + texts[k] + behind)
                &&& before.len() == 0 <==> k == 0 || (separator.len() == 0 && joined_texts(
                    texts.take(k),
                    separator,
                ).len() == 0)
                &&& k > 0 ==> before == joined_texts(texts.take(k), separator) + separator
                &&& k + 1 < texts.len() ==> separator.is_prefix_of(behind)
                &&& k + 1 == texts.len() ==> behind.len() == 0
            },
    decreases texts.len(),
{
    let all = joined_texts(texts, separator);
    if k + 1 == texts.len() {
        let before = if k == 0 {
            Seq::<char>::empty()
        } else {
            joined_texts(texts.take(k), separator) + separator
        };
        assert(texts.drop_last() =~= texts.take(k));
        assert(all =~= before + texts[k] + Seq::<char>::empty());
    } else {
        let front = texts.drop_last();
        law_joined_texts_hold_each(front, separator, k);
        let (before, behind) = choose|before: Seq<char>, behind: Seq<char>|
            {
                &&& joined_texts(front, separator) == #[trigger] (before + front[k] + behind)
                &&& before.len() == 0 <==> k == 0 || (separator.len() == 0 && joined_texts(
                    front.take(k),
                    separator,
                ).len() == 0)
                &&& k > 0 ==> before == joined_texts(front.take(k), separator) + separator
                &&& k + 1 < front.len() ==> separator.is_prefix_of(behind)
                &&& k + 1 == front.len() ==> behind.len() == 0
            };
        assert(front.take(k) =~= texts.take(k));
        let rest = behind + separator + texts.last();
        assert(all =~= before + texts[k] + rest);
        if k + 1 == front.len() {
            assert(rest =~= separator + texts.last());
        } else {
            assert(separator.is_prefix_of(rest));
        }
    }
}

/// Each ring stands in well-known text with all of its points, in brackets of its own within
/// those of its polygon. One ring is a polygon, several are a multipolygon, none an empty one.
pub proof fn law_wkt_holds_each_ring(rings: Seq<Vec<String>>, k: int)
    requires
        0 <= k < rings.len(),
    ensures
        exists|before: Seq<char>, behind: Seq<char>|
            wkt_of(rings) == #[trigger] (before + ("(("@ + joined_texts(
                point_texts(rings[k]@),
                ", "@,
            ) + "))"@) + behind) && (rings.len() == 1 ==> before == "POLYGON"@ && behind.len() == 0)
                && (rings.len() > 1 ==> "MULTIPOLYGON("@.is_prefix_of(before) && behind.len() > 0
                && behind.last() == ')'),
{
    let ring = "(("@ + joined_texts(point_texts(rings[k]@), ", "@) + "))"@;
    if rings.len() == 1 {
        reveal_strlit("POLYGON((");
        reveal_strlit("POLYGON");
        reveal_strlit("((");
        assert("POLYGON(("@ =~= "POLYGON"@ + "(("@);
        assert(wkt_of(rings) =~= "POLYGON"@ + ring + Seq::<char>::empty());
    } else {
        reveal_strlit(")");
        let parts = bracketed_rings(rings);
        assert(parts[k] == ring);
        law_joined_texts_hold_each(parts, ", "@, k);
        let (before, behind) = choose|before: Seq<char>, behind: Seq<char>|
            {
                &&& joined_texts(parts, ", "@) == #[trigger] (before + parts[k] + behind)
                &&& before.len() == 0 <==> k == 0 || (", "@.len() == 0 && joined_texts(
                    parts.take(k),
                    ", "@,
                ).len() == 0)
                &&& k > 0 ==> before == joined_texts(parts.take(k), ", "@) + ", "@
                &&& k + 1 < parts.len() ==> ", "@.is_prefix_of(behind)
                &&& k + 1 == parts.len() ==> behind.len() == 0
            };
        let front = "MULTIPOLYGON("@ + before;
        let back = behind + ")"@;
        assert(wkt_of(rings) =~= front + ring + back);
        assert(back.last() == ')');
    }
}

/// What is traced are the pixels of the mask, in their places: rows and columns count from
/// one, and nothing lies beyond the mask.
pub proof fn law_traced_pixels_are_those_of_the_mask(mask: ValidityMask, row: int, col: int)
    ensures
        0 <= row < mask.height && 0 <= col < mask.width ==> (bitmap_of(mask).pixel(
            row + 1,
            col + 1,
        ) <==> mask.bytes@[row * mask.width + col] != 0),
        !(0 <= row < mask.height && 0 <= col < mask.width) ==> !bitmap_of(mask).pixel(
            row + 1,
            col + 1,
        ),
{
}

/// Points are listed ring by ring, in their order.
pub proof fn law_points_are_listed_ring_by_ring(rings: Seq<Vec<String>>, ring: int, point: int)
    requires
        0 <= ring < rings.len(),
        0 <= point < rings[ring]@.len(),
    ensures
        ({
            let before = all_point_texts(rings.take(ring)).len();
            &&& before + point < all_point_texts(rings).len()
            &&& all_point_texts(rings)[before + point] == rings[ring]@[point]@
        }),
    decreases rings.len(),
{
    let front = rings.drop_last();
    if ring < front.len() {
        law_points_are_listed_ring_by_ring(front, ring, point);
        assert(front.take(ring) =~= rings.take(ring));
    } else {
        assert(rings.take(ring) =~= front);
        assert(point_texts(rings.last()@)[point] == rings[ring]@[point]@);
    }
}

/// The points of rings are counted without the last one of each, which is the first again.
pub proof fn law_vertices_leave_out_closing_points(rings: Seq<Vec<String>>)
    requires
        forall|i: int| 0 <= i < rings.len() ==> (#[trigger] rings[i])@.len() > 0,
    ensures
        vertices(rings) + rings.len() == all_point_texts(rings).len(),
    decreases rings.len(),
{
    if rings.len() > 0 {
        law_vertices_leave_out_closing_points(rings.drop_last());
        assert(rings.last()@.len() > 0);
    }
}

/// A mask is empty if none of its bytes is set, and whole if all are; one with pixels cannot
/// be both.
pub proof fn law_masks_are_empty_or_whole_by_their_bytes(mask: ValidityMask, i: int)
    requires
        mask.well_formed(),
        0 <= i < mask.bytes@.len(),
    ensures
        mask.bytes@[i] != 0 ==> !empty(mask),
        mask.bytes@[i] == 0 ==> !whole(mask),
{
    let w = mask.width as int;
    assert(w > 0) by (nonlinear_arith)
        requires
            0 < mask.width * mask.height,
            w == mask.width,
    ;
    vstd::arithmetic::div_mod::lemma_fundamental_div_mod(i, w);
    let r = i / w;
    let c = i % w;
    assert(w * r == r * w) by (nonlinear_arith);
    assert(0 <= r < mask.height) by (nonlinear_arith)
        requires
            0 <= i < mask.width * mask.height,
            w == mask.width,
            i == r * w + c,
            0 <= c < w,
    ;
    assert(mask.has(r, c));
    assert(mask.at(r, c) == mask.bytes@[i]);
}

} // verus!
