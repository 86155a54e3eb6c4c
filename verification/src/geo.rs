//! Georeferencing that stands as text or in boxes beside the pixels.
use crate::bytes::{copy_range, u32_be_value, u64_be_value};
use crate::fields::{
    filled_lines, find_filled_lines, find_pair, lemma_filled_lines_count, pair_in,
    range_value, word_in,
};
use crate::search::{
    find_first, first_match, is_first_match, law_numbers_are_read_where_they_stand,
    lemma_first_match, occurs_at, parse_u16_at, text_bytes, u16_at,
};
use crate::text::{decimal, law_numbers_are_spelled_in_decimal, string_from_utf8};
use vstd::prelude::*;

verus! {

/// Why GML metadata cannot be used.
#[derive(Debug, Clone, Copy, PartialEq, Eq, Structural)]
pub enum GmlError {
    EpsgNotFound,
    InvalidEpsg,
    ElementNotFound,
    PosNotFound,
    PosNotClosed,
    MalformedOffsetVector,
    UnclosedOffsetVector,
    TooFewOffsetVectors,
    MissingFirstCoordinate,
    MissingSecondCoordinate,
}

/// The two words of a pair of coordinates, as ranges of bytes.
pub type PairWords = ((usize, usize), (usize, usize));

/// The words of a pair in mathematical integers.
pub open spec fn pair_value(pair: PairWords) -> ((int, int), (int, int)) {
    (range_value(pair.0), range_value(pair.1))
}

/// The words of several pairs in mathematical integers.
pub open spec fn pair_values(pairs: Seq<PairWords>) -> Seq<((int, int), (int, int))> {
    pairs.map_values(|pair: PairWords| pair_value(pair))
}

/// The two coordinates in a part of a text.
pub open spec fn coordinates(text: Seq<u8>, at: int, end: int) -> Result<
    ((int, int), (int, int)),
    GmlError,
> {
    match pair_in(text, at, end) {
        (None, _) => Err(GmlError::MissingFirstCoordinate),
        (Some(_), None) => Err(GmlError::MissingSecondCoordinate),
        (Some(first), Some(second)) => Ok((first, second)),
    }
}

/// Finds the two coordinates in a part of a text; it is an error if one of them is missing.
pub fn parse_pair(text: &[u8], at: usize, end: usize) -> (result: Result<PairWords, GmlError>)
    requires
        at <= end <= text@.len(),
    ensures
        match coordinates(text@, at as int, end as int) {
            Err(error) => result == Err::<PairWords, GmlError>(error),
            Ok(pair) => result matches Ok(found) && pair_value(found) == pair,
        },
{
    match find_pair(text, at, end) {
        (None, _) => Err(GmlError::MissingFirstCoordinate),
        (Some(_), None) => Err(GmlError::MissingSecondCoordinate),
        (Some(first), Some(second)) => Ok((first, second)),
    }
}

/// The number that follows the first `marker`.
pub open spec fn code_after(text: Seq<u8>, marker: Seq<u8>) -> Option<Option<u16>> {
    match first_match(text, marker, 0) {
        None => None,
        Some(at) => Some(u16_at(text, at + marker.len())),
    }
}

fn parse_code_after(text: &[u8], marker: &[u8]) -> (code: Option<Option<u16>>)
    ensures
        code == code_after(text@, marker@),
{
    match find_first(text, marker, 0) {
        None => None,
        Some(at) => {
            let length: usize = text.len();
            Some(parse_u16_at(text, at + marker.len()))
        },
    }
}

/// The EPSG code of a GML coordinate reference, which is a URN that ends in `EPSG::`
/// and the code.
pub fn parse_epsg(xml: &str) -> (result: Result<u16, GmlError>)
    ensures
        result == (match code_after(text_bytes(xml), text_bytes("EPSG::")) {
            None => Err(GmlError::EpsgNotFound),
            Some(None) => Err(GmlError::InvalidEpsg),
            Some(Some(code)) => Ok(code),
        }),
{
    match parse_code_after(xml.as_bytes(), "EPSG::".as_bytes()) {
        None => Err(GmlError::EpsgNotFound),
        Some(None) => Err(GmlError::InvalidEpsg),
        Some(Some(code)) => Ok(code),
    }
}

/// Where the code begins that follows a marker: behind a quote, where one stands there.
pub open spec fn unquoted(text: Seq<u8>, at: int) -> int {
    if at < text.len() && text[at] == 34 {
        at + 1
    } else {
        at
    }
}

/// The EPSG code in the text of a `.prj` file, which stands behind the first `EPSG",`, in
/// quotes or without.
pub open spec fn prj_code(text: Seq<u8>) -> Option<u16> {
    let marker = text_bytes("EPSG\",");
    match first_match(text, marker, 0) {
        None => None,
        Some(at) => u16_at(text, unquoted(text, at + marker.len())),
    }
}

/// The EPSG code in the text of a `.prj` file.
pub fn parse_prj_epsg(contents: &str) -> (code: Option<u16>)
    ensures
        code == prj_code(text_bytes(contents)),
{
    let text: &[u8] = contents.as_bytes();
    let marker: &[u8] = "EPSG\",".as_bytes();
    match find_first(text, marker, 0) {
        None => None,
        Some(at) => {
            let length: usize = text.len();
            let behind: usize = at + marker.len();
            let from: usize = if behind < length && text[behind] == 34 {
                behind + 1
            } else {
                behind
            };
            parse_u16_at(text, from)
        },
    }
}

/// Where the text of the first `gml:pos` element behind the start of the element
/// `open` begins and ends; `open` is the element's tag without its closing bracket.
pub open spec fn pos_range(xml: Seq<u8>, open: Seq<u8>) -> Result<(int, int), GmlError> {
    match first_match(xml, open, 0) {
        None => Err(GmlError::ElementNotFound),
        Some(start) => match first_match(xml, text_bytes("<gml:pos>"), start as int) {
            None => Err(GmlError::PosNotFound),
            Some(tag) => {
                let from = tag + text_bytes("<gml:pos>").len();
                match first_match(xml, text_bytes("</gml:pos>"), from) {
                    None => Err(GmlError::PosNotClosed),
                    Some(end) => Ok((from, end as int)),
                }
            },
        },
    }
}

/// Finds the coordinate text of an element.
pub fn find_pos(xml: &str, open: &str) -> (result: Result<(usize, usize), GmlError>)
    ensures
        match pos_range(text_bytes(xml), text_bytes(open)) {
            Err(error) => result == Err::<(usize, usize), GmlError>(error),
            Ok(range) => {
                &&& result matches Ok(found) && found.0 == range.0 && found.1 == range.1
                &&& 0 <= range.0 <= range.1 <= text_bytes(xml).len()
            },
        },
{
    let text: &[u8] = xml.as_bytes();
    let length: usize = text.len();
    let start: usize = match find_first(text, open.as_bytes(), 0) {
        None => {
            return Err(GmlError::ElementNotFound);
        },
        Some(start) => start,
    };
    let pos: &[u8] = "<gml:pos>".as_bytes();
    let tag: usize = match find_first(text, pos, start) {
        None => {
            return Err(GmlError::PosNotFound);
        },
        Some(tag) => tag,
    };
    let from: usize = tag + pos.len();
    match find_first(text, "</gml:pos>".as_bytes(), from) {
        None => Err(GmlError::PosNotClosed),
        Some(end) => Ok((from, end)),
    }
}

/// Where the text of the first `gml:offsetVector` element from `from` on begins and
/// ends; none where there is no further element.
pub open spec fn offset_vector_range(xml: Seq<u8>, from: int) -> Result<
    Option<(int, int)>,
    GmlError,
> {
    match first_match(xml, text_bytes("<gml:offsetVector"), from) {
        None => Ok(None),
        Some(start) => match first_match(xml, text_bytes(">"), start as int) {
            None => Err(GmlError::MalformedOffsetVector),
            Some(bracket) => {
                let content = bracket + text_bytes(">").len();
                match first_match(xml, text_bytes("</gml:offsetVector>"), content) {
                    None => Err(GmlError::UnclosedOffsetVector),
                    Some(end) => Ok(Some((content, end as int))),
                }
            },
        },
    }
}

/// Finds the text of the next offset vector. The search for the one after it goes on
/// from the end that is returned.
pub fn find_offset_vector(xml: &str, from: usize) -> (result: Result<
    Option<(usize, usize)>,
    GmlError,
>)
    requires
        from <= text_bytes(xml).len(),
    ensures
        match offset_vector_range(text_bytes(xml), from as int) {
            Err(error) => result == Err::<Option<(usize, usize)>, GmlError>(error),
            Ok(None) => result == Ok::<Option<(usize, usize)>, GmlError>(None),
            Ok(Some(range)) => {
                &&& result matches Ok(Some(found)) && found.0 == range.0 && found.1 == range.1
                &&& from < range.0 <= range.1 <= text_bytes(xml).len()
            },
        },
{
    proof {
        reveal_strlit(">");
        vstd::utf8::is_ascii_chars_encode_utf8(">"@);
    }
    let text: &[u8] = xml.as_bytes();
    let length: usize = text.len();
    let start: usize = match find_first(text, "<gml:offsetVector".as_bytes(), from) {
        None => {
            return Ok(None);
        },
        Some(start) => start,
    };
    let close: &[u8] = ">".as_bytes();
    let bracket: usize = match find_first(text, close, start) {
        None => {
            return Err(GmlError::MalformedOffsetVector);
        },
        Some(bracket) => bracket,
    };
    let content: usize = bracket + close.len();
    match find_first(text, "</gml:offsetVector>".as_bytes(), content) {
        None => Err(GmlError::UnclosedOffsetVector),
        Some(end) => Ok(Some((content, end))),
    }
}

/// The coordinates of all offset vectors from `from` on. The first that cannot be found
/// or lacks a coordinate is an error.
pub open spec fn offset_vectors(xml: Seq<u8>, from: int) -> Result<
    Seq<((int, int), (int, int))>,
    GmlError,
>
    decreases xml.len() - from,
{
    match offset_vector_range(xml, from) {
        Err(error) => Err(error),
        Ok(None) => Ok(Seq::empty()),
        Ok(Some(range)) => match coordinates(xml, range.0, range.1) {
            Err(error) => Err(error),
            Ok(pair) => if from < range.1 <= xml.len() {
                match offset_vectors(xml, range.1) {
                    Err(error) => Err(error),
                    Ok(rest) => Ok(seq![pair] + rest),
                }
            } else {
                Ok(Seq::empty())
            },
        },
    }
}

/// Finds the coordinates of all offset vectors.
pub fn parse_offset_vectors(xml: &str) -> (result: Result<Vec<PairWords>, GmlError>)
    ensures
        match offset_vectors(text_bytes(xml), 0) {
            Err(error) => result == Err::<Vec<PairWords>, GmlError>(error),
            Ok(pairs) => result matches Ok(found) && pair_values(found@) == pairs,
        },
{
    let ghost all = offset_vectors(text_bytes(xml), 0);
    let mut vectors: Vec<PairWords> = Vec::new();
    let mut from: usize = 0;
    proof {
        match all {
            Ok(pairs) => {
                assert(pair_values(vectors@) + pairs =~= pairs);
            },
            Err(_) => {},
        }
    }
    loop
        invariant
            from <= text_bytes(xml).len(),
            all == offset_vectors(text_bytes(xml), 0),
            match offset_vectors(text_bytes(xml), from as int) {
                Err(error) => all == Err::<Seq<((int, int), (int, int))>, GmlError>(error),
                Ok(rest) => all == Ok::<Seq<((int, int), (int, int))>, GmlError>(
                    pair_values(vectors@) + rest,
                ),
            },
        decreases text_bytes(xml).len() - from,
    {
        match find_offset_vector(xml, from) {
            Err(error) => {
                return Err(error);
            },
            Ok(None) => {
                assert(pair_values(vectors@) + Seq::<((int, int), (int, int))>::empty()
                    =~= pair_values(vectors@));
                return Ok(vectors);
            },
            Ok(Some(range)) => match parse_pair(xml.as_bytes(), range.0, range.1) {
                Err(error) => {
                    return Err(error);
                },
                Ok(pair) => {
                    let ghost before = vectors@;
                    vectors.push(pair);
                    proof {
                        let rest_of = offset_vectors(text_bytes(xml), range.1 as int);
                        assert(pair_values(vectors@) =~= pair_values(before) + seq![
                            pair_value(pair),
                        ]);
                        match rest_of {
                            Ok(rest) => {
                                assert(pair_values(vectors@) + rest =~= pair_values(before) + (seq![
                                    pair_value(pair),
                                ] + rest));
                            },
                            Err(_) => {},
                        }
                    }
                    from = range.1;
                },
            },
        }
    }
}

/// What GML metadata says of a raster's place: the code of its coordinate reference, and
/// the words that give its origin and its offset vectors. The first vector leads from a
/// column to the next, the second from a row to the next.
#[derive(Debug)]
pub struct GmlGrid {
    pub epsg: u16,
    pub origin: PairWords,
    pub vectors: Vec<PairWords>,
}

/// The origin that GML metadata give.
pub open spec fn gml_origin(xml: Seq<u8>) -> Result<((int, int), (int, int)), GmlError> {
    match pos_range(xml, text_bytes("<gml:origin")) {
        Err(error) => Err(error),
        Ok(range) => coordinates(xml, range.0, range.1),
    }
}

/// The first problem of GML metadata, or none: a code, an origin or an offset vector that
/// is not there, or a coordinate that is missing in the origin or in any of the vectors.
pub open spec fn gml_problem(xml: Seq<u8>) -> Option<GmlError> {
    match code_after(xml, text_bytes("EPSG::")) {
        None => Some(GmlError::EpsgNotFound),
        Some(None) => Some(GmlError::InvalidEpsg),
        Some(Some(_)) => match gml_origin(xml) {
            Err(error) => Some(error),
            Ok(_) => match offset_vectors(xml, 0) {
                Err(error) => Some(error),
                Ok(vectors) => if vectors.len() < 2 {
                    Some(GmlError::TooFewOffsetVectors)
                } else {
                    None
                },
            },
        },
    }
}

/// Whether a grid holds what the metadata says.
pub open spec fn is_gml_grid(xml: Seq<u8>, grid: GmlGrid) -> bool {
    &&& code_after(xml, text_bytes("EPSG::")) == Some(Some(grid.epsg))
    &&& gml_origin(xml) == Ok::<((int, int), (int, int)), GmlError>(pair_value(grid.origin))
    &&& offset_vectors(xml, 0) == Ok::<Seq<((int, int), (int, int))>, GmlError>(
        pair_values(grid.vectors@),
    )
    &&& grid.vectors@.len() >= 2
}

/// Reads the place of a raster from the GML metadata of a JPEG 2000 file.
pub fn parse_gmljp2(xml: &str) -> (result: Result<GmlGrid, GmlError>)
    ensures
        match gml_problem(text_bytes(xml)) {
            Some(error) => result matches Err(found) && found == error,
            None => result matches Ok(grid) && is_gml_grid(text_bytes(xml), grid),
        },
{
    let epsg: u16 = match parse_epsg(xml) {
        Err(error) => {
            return Err(error);
        },
        Ok(epsg) => epsg,
    };
    let range: (usize, usize) = match find_pos(xml, "<gml:origin") {
        Err(error) => {
            return Err(error);
        },
        Ok(range) => range,
    };
    let origin: PairWords = match parse_pair(xml.as_bytes(), range.0, range.1) {
        Err(error) => {
            return Err(error);
        },
        Ok(origin) => origin,
    };
    let vectors: Vec<PairWords> = match parse_offset_vectors(xml) {
        Err(error) => {
            return Err(error);
        },
        Ok(vectors) => vectors,
    };
    assert(pair_values(vectors@).len() == vectors@.len());
    if vectors.len() < 2 {
        return Err(GmlError::TooFewOffsetVectors);
    }
    Ok(GmlGrid { epsg, origin, vectors })
}

/// Why a world file cannot be used.
#[derive(Debug, Clone, Copy, PartialEq, Eq, Structural)]
pub enum WorldFileError {
    TooFewLines { found: usize },
}

/// The values of a world file, as ranges of bytes. The coordinates are those of the middle
/// of the first pixel.
#[derive(Debug, Clone, Copy)]
pub struct WorldFile {
    /// How far a column leads along x.
    pub pixel_width: (usize, usize),
    /// How far a column leads along y.
    pub skew_y: (usize, usize),
    /// How far a row leads along x.
    pub skew_x: (usize, usize),
    /// How far a row leads along y.
    pub pixel_height: (usize, usize),
    pub center_x: (usize, usize),
    pub center_y: (usize, usize),
}

/// The values of a world file in the order of its lines.
pub open spec fn world_file_lines(file: WorldFile) -> Seq<(int, int)> {
    seq![
        range_value(file.pixel_width),
        range_value(file.skew_y),
        range_value(file.skew_x),
        range_value(file.pixel_height),
        range_value(file.center_x),
        range_value(file.center_y),
    ]
}

/// Finds the values of a GDAL world file: its first six lines that are not empty. Fewer
/// lines are an error.
pub fn parse_world_file(contents: &str) -> (result: Result<WorldFile, WorldFileError>)
    ensures
        ({
            let lines = filled_lines(text_bytes(contents), 0, 6);
            if lines.len() < 6 {
                result matches Err(WorldFileError::TooFewLines { found }) && found == lines.len()
            } else {
                result matches Ok(file) && world_file_lines(file) == lines
            }
        }),
{
    let lines: Vec<(usize, usize)> = find_filled_lines(contents.as_bytes(), 6);
    let ghost values = lines@.map_values(|range: (usize, usize)| range_value(range));
    proof {
        lemma_filled_lines_count(text_bytes(contents), 0, 6);
        assert(values.len() == lines@.len());
    }
    if lines.len() < 6 {
        return Err(WorldFileError::TooFewLines { found: lines.len() });
    }
    let file = WorldFile {
        pixel_width: lines[0],
        skew_y: lines[1],
        skew_x: lines[2],
        pixel_height: lines[3],
        center_x: lines[4],
        center_y: lines[5],
    };
    assert(world_file_lines(file) =~= values);
    Ok(file)
}

/// Why a JPEG 2000 file has no readable XML box.
#[derive(Debug, Clone, Copy, PartialEq, Eq, Structural)]
pub enum BoxError {
    TruncatedHeader { offset: usize },
    TruncatedLength { offset: usize },
    InvalidSize { offset: usize },
    SizeOverflow,
    TruncatedBox { offset: usize },
    NoXmlBox,
    InvalidUtf8,
}

/// A box of a JPEG 2000 file: its type, where its contents start, and where it ends.
#[derive(Debug, Clone, Copy)]
pub struct BoxHeader {
    pub kind: [u8; 4],
    pub payload_start: usize,
    pub payload_end: usize,
    pub box_end: usize,
}

/// Where a box that starts at `offset` has its contents and its end. A size of one
/// means that the size follows the type in eight bytes; a size of zero that the box
/// reaches to `limit`.
pub open spec fn box_at(data: Seq<u8>, offset: int, limit: int) -> Result<(int, int), BoxError> {
    if offset + 8 > limit {
        Err(BoxError::TruncatedHeader { offset: offset as usize })
    } else {
        let short = u32_be_value(data.subrange(offset, offset + 4)) as int;
        if short == 1 && offset + 16 > limit {
            Err(BoxError::TruncatedLength { offset: offset as usize })
        } else {
            let start = if short == 1 {
                offset + 16
            } else {
                offset + 8
            };
            let size = if short == 1 {
                u64_be_value(data.subrange(offset + 8, offset + 16)) as int
            } else if short == 0 {
                limit - offset
            } else {
                short
            };
            if offset + size < start {
                Err(BoxError::InvalidSize { offset: offset as usize })
            } else if offset + size > usize::MAX {
                Err(BoxError::SizeOverflow)
            } else if offset + size > limit {
                Err(BoxError::TruncatedBox { offset: offset as usize })
            } else {
                Ok((start, offset + size))
            }
        }
    }
}

/// The type of a box that starts at `offset`.
pub open spec fn box_kind(data: Seq<u8>, offset: int) -> Seq<u8> {
    data.subrange(offset + 4, offset + 8)
}

/// Whether a box of this type holds other boxes.
pub open spec fn is_container(kind: Seq<u8>) -> bool {
    ||| kind == text_bytes("jp2h")
    ||| kind == text_bytes("asoc")
    ||| kind == text_bytes("uinf")
    ||| kind == text_bytes("rreq")
    ||| kind == text_bytes("list")
}

/// The contents of the first XML box among the boxes from `offset` to `end`, with the
/// boxes inside a container before the boxes behind it.
pub open spec fn first_xml(data: Seq<u8>, offset: int, end: int) -> Result<
    Option<Seq<u8>>,
    BoxError,
>
    decreases end - offset,
{
    if offset < 0 || offset + 8 > end {
        Ok(None)
    } else {
        match box_at(data, offset, end) {
            Err(error) => Err(error),
            Ok((start, box_end)) => {
                if box_kind(data, offset) == text_bytes("xml ") {
                    Ok(Some(data.subrange(start, box_end)))
                } else {
                    let inner = if is_container(box_kind(data, offset)) && box_end > start {
                        first_xml(data, start, box_end)
                    } else {
                        Ok(None)
                    };
                    match inner {
                        Err(error) => Err(error),
                        Ok(Some(xml)) => Ok(Some(xml)),
                        Ok(None) => first_xml(data, box_end, end),
                    }
                }
            },
        }
    }
}

/// Reads four big-endian bytes.
pub fn read_u32_be(data: &[u8], offset: usize) -> (value: u32)
    requires
        offset + 4 <= data@.len(),
    ensures
        value == u32_be_value(data@.subrange(offset as int, offset + 4)),
{
    let length: usize = data.len();
    16777216 * data[offset] as u32 + 65536 * data[offset + 1] as u32 + 256 * data[offset + 2] as u32
        + data[offset + 3] as u32
}

/// Reads eight big-endian bytes.
pub fn read_u64_be(data: &[u8], offset: usize) -> (value: u64)
    requires
        offset + 8 <= data@.len(),
    ensures
        value == u64_be_value(data@.subrange(offset as int, offset + 8)),
{
    let length: usize = data.len();
    let high: u32 = read_u32_be(data, offset);
    let low: u32 = read_u32_be(data, offset + 4);
    proof {
        let all = data@.subrange(offset as int, offset + 8);
        assert(all.subrange(0, 4) =~= data@.subrange(offset as int, offset + 4));
        assert(all.subrange(4, 8) =~= data@.subrange(offset + 4, offset + 8));
    }
    high as u64 * 4294967296 + low as u64
}

/// Reads the header of the box at `offset`, which has to end by `limit`.
pub fn read_box_header(data: &[u8], offset: usize, limit: usize) -> (result: Result<
    BoxHeader,
    BoxError,
>)
    requires
        offset <= limit <= data@.len(),
    ensures
        match box_at(data@, offset as int, limit as int) {
            Err(error) => result matches Err(reported) && reported == error,
            Ok((start, end)) => {
                &&& result matches Ok(header) && header.kind@ == box_kind(data@, offset as int)
                    && header.payload_start == start && header.payload_end == end && header.box_end
                    == end
                &&& offset + 8 <= start <= end <= limit
            },
        },
{
    let length: usize = data.len();
    if limit - offset < 8 {
        return Err(BoxError::TruncatedHeader { offset });
    }
    let short: u32 = read_u32_be(data, offset);
    let kind: [u8; 4] = [data[offset + 4], data[offset + 5], data[offset + 6], data[offset + 7]];
    assert(kind@ =~= box_kind(data@, offset as int));
    let mut size: u64 = short as u64;
    let mut header_end: usize = offset + 8;
    if short == 1 {
        if limit - offset < 16 {
            return Err(BoxError::TruncatedLength { offset });
        }
        size = read_u64_be(data, offset + 8);
        header_end = offset + 16;
    } else if short == 0 {
        size = (limit - offset) as u64;
    }
    if size < (header_end - offset) as u64 {
        return Err(BoxError::InvalidSize { offset });
    }
    if size > (usize::MAX - offset) as u64 {
        return Err(BoxError::SizeOverflow);
    }
    let box_end: usize = offset + size as usize;
    if box_end > limit {
        return Err(BoxError::TruncatedBox { offset });
    }
    Ok(BoxHeader { kind, payload_start: header_end, payload_end: box_end, box_end })
}

fn kind_is(kind: &[u8; 4], name: &str) -> (same: bool)
    ensures
        same == (kind@ == text_bytes(name)),
{
    let bytes: &[u8] = name.as_bytes();
    if bytes.len() != 4 {
        return false;
    }
    let same: bool = kind[0] == bytes[0] && kind[1] == bytes[1] && kind[2] == bytes[2] && kind[3]
        == bytes[3];
    proof {
        if same {
            assert(kind@ =~= bytes@);
        }
    }
    same
}

/// Whether a box of this type holds other boxes.
pub fn is_container_box(kind: &[u8; 4]) -> (container: bool)
    ensures
        container == is_container(kind@),
{
    kind_is(kind, "jp2h") || kind_is(kind, "asoc") || kind_is(kind, "uinf") || kind_is(kind, "rreq")
        || kind_is(kind, "list")
}

/// Finds the first XML box among the boxes from `start` to `end`.
pub fn find_xml_box(data: &[u8], start: usize, end: usize) -> (result: Result<
    Option<Vec<u8>>,
    BoxError,
>)
    requires
        start <= end <= data@.len(),
    ensures
        match first_xml(data@, start as int, end as int) {
            Err(error) => result matches Err(reported) && reported == error,
            Ok(None) => result matches Ok(None),
            Ok(Some(xml)) => result matches Ok(Some(bytes)) && bytes@ == xml,
        },
    decreases end - start,
{
    let mut offset: usize = start;
    while end - offset >= 8
        invariant
            start <= offset <= end <= data@.len(),
            first_xml(data@, start as int, end as int) == first_xml(
                data@,
                offset as int,
                end as int,
            ),
        decreases end - offset,
    {
        let header: BoxHeader = match read_box_header(data, offset, end) {
            Err(error) => {
                return Err(error);
            },
            Ok(header) => header,
        };
        if kind_is(&header.kind, "xml ") {
            return Ok(Some(copy_range(data, header.payload_start, header.payload_end)));
        }
        if is_container_box(&header.kind) && header.payload_end > header.payload_start {
            match find_xml_box(data, header.payload_start, header.payload_end) {
                Err(error) => {
                    return Err(error);
                },
                Ok(Some(xml)) => {
                    return Ok(Some(xml));
                },
                Ok(None) => {},
            }
        }
        offset = header.box_end;
    }
    Ok(None)
}

/// The text of the first XML box of a JPEG 2000 file, which may stand inside other
/// boxes.
pub fn extract_jp2_xml(data: &[u8]) -> (result: Result<String, BoxError>)
    ensures
        match first_xml(data@, 0, data@.len() as int) {
            Err(error) => result matches Err(reported) && reported == error,
            Ok(None) => result matches Err(BoxError::NoXmlBox),
            Ok(Some(xml)) => if vstd::utf8::valid_utf8(xml) {
                result matches Ok(text) && text@ == vstd::utf8::decode_utf8(xml)
            } else {
                result matches Err(BoxError::InvalidUtf8)
            },
        },
{
    match find_xml_box(data, 0, data.len()) {
        Err(error) => Err(error),
        Ok(None) => Err(BoxError::NoXmlBox),
        Ok(Some(bytes)) => match string_from_utf8(bytes) {
            Some(text) => Ok(text),
            None => Err(BoxError::InvalidUtf8),
        },
    }
}

/// The number that is spelled behind the first marker, and ends there, is the code.
pub proof fn law_code_stands_behind_marker(text: Seq<u8>, marker: Seq<u8>, at: int, code: u16)
    requires
        is_first_match(text, marker, 0, Some(at as usize)),
        0 <= at <= text.len() <= usize::MAX,
        ({
            let spelled = decimal(code as nat).map_values(|c: char| c as u8);
            let from = at + marker.len();
            &&& occurs_at(text, spelled, from)
            &&& from + spelled.len() < text.len() ==> !(48 <= text[from + spelled.len()] <= 57)
        }),
    ensures
        code_after(text, marker) == Some(Some(code)),
{
    lemma_first_match(text, marker, 0, Some(at as usize));
    law_numbers_are_read_where_they_stand(text, at + marker.len(), code as nat);
}

/// The number that is spelled behind the first authority name, in quotes or not, is the code
/// of a projection file.
pub proof fn law_projection_code_stands_behind_authority(
    text: Seq<u8>,
    at: int,
    quoted: bool,
    code: u16,
)
    requires
        is_first_match(text, text_bytes("EPSG\","), 0, Some(at as usize)),
        0 <= at <= text.len() <= usize::MAX,
        ({
            let spelled = decimal(code as nat).map_values(|c: char| c as u8);
            let behind = at + text_bytes("EPSG\",").len();
            let from = if quoted {
                behind + 1
            } else {
                behind
            };
            &&& quoted ==> behind < text.len() && text[behind] == 34
            &&& occurs_at(text, spelled, from)
            &&& from + spelled.len() < text.len() ==> !(48 <= text[from + spelled.len()] <= 57)
        }),
    ensures
        prj_code(text) == Some(code),
{
    let marker = text_bytes("EPSG\",");
    let behind = at + marker.len();
    let spelled = decimal(code as nat).map_values(|c: char| c as u8);
    lemma_first_match(text, marker, 0, Some(at as usize));
    law_numbers_are_spelled_in_decimal(code as nat, 0);
    if quoted {
        law_numbers_are_read_where_they_stand(text, behind + 1, code as nat);
    } else {
        assert(text.subrange(behind, behind + spelled.len())[0] == text[behind]);
        assert(spelled[0] == decimal(code as nat)[0] as u8);
        law_numbers_are_read_where_they_stand(text, behind, code as nat);
    }
}

/// The position of an element is the text between the first opening tag of a position behind
/// the element's own tag, and the first closing tag behind that.
pub proof fn law_positions_stand_between_their_tags(xml: Seq<u8>, open: Seq<u8>, from: int, end: int)
    requires
        pos_range(xml, open) == Ok::<(int, int), GmlError>((from, end)),
        xml.len() <= usize::MAX,
    ensures
        ({
            let tag = text_bytes("<gml:pos>");
            let close = text_bytes("</gml:pos>");
            &&& occurs_at(xml, tag, from - tag.len())
            &&& from <= end
            &&& occurs_at(xml, close, end)
            &&& forall|j: int| from <= j < end ==> !#[trigger] occurs_at(xml, close, j)
            &&& exists|start: int|
                0 <= start <= from - tag.len() && #[trigger] occurs_at(xml, open, start)
        }),
{
    let tag = text_bytes("<gml:pos>");
    let close = text_bytes("</gml:pos>");
    lemma_match_exists(xml, open, 0);
    let start = first_match(xml, open, 0)->0 as int;
    lemma_match_exists(xml, tag, start);
    lemma_match_exists(xml, close, from);
    assert(occurs_at(xml, open, start));
}

/// There is a first match, or none.
proof fn lemma_match_exists(text: Seq<u8>, pattern: Seq<u8>, from: int)
    requires
        0 <= from,
        text.len() <= usize::MAX,
    ensures
        is_first_match(text, pattern, from, first_match(text, pattern, from)),
{
    if exists|at: int| from <= at && occurs_at(text, pattern, at) {
        let at = choose|at: int| from <= at && occurs_at(text, pattern, at);
        assert forall|i: int| 0 <= i < pattern.len() implies #[trigger] pattern[i] == text[at
            + i] by {
            assert(text.subrange(at, at + pattern.len())[i] == text[at + i]);
        }
        let found = crate::search::lemma_earliest(text, pattern, from, at);
        lemma_first_match(text, pattern, from, Some(found as usize));
        assert(is_first_match(text, pattern, from, Some(found as usize)));
    } else {
        assert(is_first_match(text, pattern, from, None));
        lemma_first_match(text, pattern, from, None);
    }
}

/// A grid has a code, the two numbers of its origin, and at least two vectors, each the two
/// words between the tags of an offset vector.
pub proof fn law_grids_hold_what_the_text_says(xml: Seq<u8>, grid: GmlGrid)
    requires
        is_gml_grid(xml, grid),
        xml.len() <= usize::MAX,
    ensures
        gml_problem(xml) is None,
        grid.vectors@.len() >= 2,
        offset_vector_range(xml, 0) matches Ok(Some(range)) && coordinates(xml, range.0, range.1)
            == Ok::<((int, int), (int, int)), GmlError>(pair_value(grid.vectors@[0])),
        pos_range(xml, text_bytes("<gml:origin")) matches Ok(range) && coordinates(
            xml,
            range.0,
            range.1,
        ) == Ok::<((int, int), (int, int)), GmlError>(pair_value(grid.origin)),
{
    let vectors = pair_values(grid.vectors@);
    assert(vectors[0] == pair_value(grid.vectors@[0]));
}

/// The first number of a coordinate is the first word of its text, the second one the next.
pub proof fn law_coordinates_are_two_words(text: Seq<u8>, at: int, end: int)
    requires
        0 <= at <= end <= text.len(),
    ensures
        coordinates(text, at, end) matches Ok((first, second)) ==> {
            &&& word_in(text, at, end) == Some(first)
            &&& word_in(text, first.1, end) == Some(second)
        },
        word_in(text, at, end) is None ==> coordinates(text, at, end) == Err::<
            ((int, int), (int, int)),
            GmlError,
        >(GmlError::MissingFirstCoordinate),
{
}

/// The six lines of a world file: pixel width, the two rotations, the one of rows first, pixel
/// height, and the middle of the first pixel, column first.
pub proof fn law_world_files_have_six_lines(file: WorldFile)
    ensures
        world_file_lines(file).len() == 6,
        world_file_lines(file)[0] == (file.pixel_width.0 as int, file.pixel_width.1 as int),
        world_file_lines(file)[1] == (file.skew_y.0 as int, file.skew_y.1 as int),
        world_file_lines(file)[2] == (file.skew_x.0 as int, file.skew_x.1 as int),
        world_file_lines(file)[3] == (file.pixel_height.0 as int, file.pixel_height.1 as int),
        world_file_lines(file)[4] == (file.center_x.0 as int, file.center_x.1 as int),
        world_file_lines(file)[5] == (file.center_y.0 as int, file.center_y.1 as int),
{
}

/// A box says in its first four bytes how long it is, with its header, high byte first. One
/// says that the length follows in eight bytes, zero that the box reaches to the end.
pub proof fn law_boxes_are_as_long_as_they_say(data: Seq<u8>, offset: int, limit: int)
    requires
        0 <= offset,
        offset + 16 <= limit <= data.len() <= usize::MAX,
    ensures
        ({
            let length = ((data[offset] * 256 + data[offset + 1]) * 256 + data[offset + 2]) * 256
                + data[offset + 3];
            &&& length >= 8 && offset + length <= limit ==> box_at(data, offset, limit) == Ok::<
                (int, int),
                BoxError,
            >((offset + 8, offset + length))
            &&& length == 0 ==> box_at(data, offset, limit) == Ok::<(int, int), BoxError>(
                (offset + 8, limit),
            )
            &&& 1 < length < 8 ==> box_at(data, offset, limit) is Err
            &&& length > limit - offset ==> box_at(data, offset, limit) is Err
            &&& length == 1 ==> (box_at(data, offset, limit) matches Ok((start, end)) ==> start
                == offset + 16 && end == offset + u64_be_value(
                data.subrange(offset + 8, offset + 16),
            ))
        }),
{
    crate::bytes::law_byte_order_decides_value(data.subrange(offset, offset + 4));
}

/// Text that is found in a file is all of a box for text, behind its header.
pub proof fn law_found_text_is_a_text_box(data: Seq<u8>, offset: int, end: int, xml: Seq<u8>)
    requires
        first_xml(data, offset, end) == Ok::<Option<Seq<u8>>, BoxError>(Some(xml)),
        0 <= offset,
        end <= data.len(),
    ensures
        exists|at: int, start: int, stop: int, limit: int|
            offset <= at && limit <= end && #[trigger] box_at(data, at, limit) == Ok::<
                (int, int),
                BoxError,
            >((start, stop)) && #[trigger] data.subrange(at + 4, at + 8) == text_bytes("xml ")
                && xml == #[trigger] data.subrange(start, stop),
    decreases end - offset,
{
    let (start, stop) = box_at(data, offset, end)->Ok_0;
    if box_kind(data, offset) == text_bytes("xml ") {
        assert(data.subrange(offset + 4, offset + 8) == text_bytes("xml "));
        assert(xml == data.subrange(start, stop));
    } else {
        let inner = if is_container(box_kind(data, offset)) && stop > start {
            first_xml(data, start, stop)
        } else {
            Ok(None)
        };
        if inner == Ok::<Option<Seq<u8>>, BoxError>(Some(xml)) {
            law_found_text_is_a_text_box(data, start, stop, xml);
        } else {
            law_found_text_is_a_text_box(data, stop, end, xml);
        }
    }
}

/// A box for text that stands first in a file, or first behind boxes without others in them,
/// is found.
pub proof fn law_first_text_box_is_found(data: Seq<u8>, offset: int, end: int, start: int, stop: int)
    requires
        0 <= offset,
        offset + 8 <= end <= data.len(),
        box_at(data, offset, end) == Ok::<(int, int), BoxError>((start, stop)),
    ensures
        data.subrange(offset + 4, offset + 8) == text_bytes("xml ") ==> first_xml(
            data,
            offset,
            end,
        ) == Ok::<Option<Seq<u8>>, BoxError>(Some(data.subrange(start, stop))),
        data.subrange(offset + 4, offset + 8) != text_bytes("xml ") && !is_container(
            data.subrange(offset + 4, offset + 8),
        ) ==> first_xml(data, offset, end) == first_xml(data, stop, end),
{
}

/// An offset vector is the text between the end of its opening tag and the first closing tag
/// behind that.
pub proof fn law_offset_vectors_stand_between_their_tags(
    xml: Seq<u8>,
    from: int,
    content: int,
    end: int,
)
    requires
        offset_vector_range(xml, from) == Ok::<Option<(int, int)>, GmlError>(
            Some((content, end)),
        ),
        0 <= from,
        xml.len() <= usize::MAX,
    ensures
        ({
            let bracket = text_bytes(">");
            let close = text_bytes("</gml:offsetVector>");
            &&& occurs_at(xml, bracket, content - bracket.len())
            &&& content <= end
            &&& occurs_at(xml, close, end)
            &&& forall|j: int| content <= j < end ==> !#[trigger] occurs_at(xml, close, j)
            &&& exists|start: int|
                from <= start <= content - bracket.len() && #[trigger] occurs_at(
                    xml,
                    text_bytes("<gml:offsetVector"),
                    start,
                )
        }),
{
    lemma_match_exists(xml, text_bytes("<gml:offsetVector"), from);
    let start = first_match(xml, text_bytes("<gml:offsetVector"), from)->0 as int;
    lemma_match_exists(xml, text_bytes(">"), start);
    lemma_match_exists(xml, text_bytes("</gml:offsetVector>"), content);
    assert(occurs_at(xml, text_bytes("<gml:offsetVector"), start));
}

/// A box whose header does not fit, or whose long length does not, is cut short.
pub proof fn law_short_headers_are_refused(data: Seq<u8>, offset: int, limit: int)
    requires
        0 <= offset <= limit <= data.len() <= usize::MAX,
    ensures
        offset + 8 > limit ==> box_at(data, offset, limit) is Err,
        offset + 8 <= limit < offset + 16 && data[offset] == 0 && data[offset + 1] == 0
            && data[offset + 2] == 0 && data[offset + 3] == 1 ==> box_at(
            data,
            offset,
            limit,
        ) is Err,
{
    if offset + 8 <= limit {
        crate::bytes::law_byte_order_decides_value(data.subrange(offset, offset + 4));
    }
}

} // verus!
