//! Telling the format of a raster from its first bytes and its name.
use crate::open::{http_source, is_http_source};
use crate::text::{
    ascii_lower, law_lowering_changes_capitals_only, lowered, lowered_equals,
};
use vstd::prelude::*;

verus! {

/// A raster format that can be read.
#[derive(Debug, Clone, Copy, PartialEq, Eq, Structural)]
pub enum InputFormat {
    Jp2,
    GeoTiff,
}

/// The format that the first bytes of a file show: a TIFF byte order mark, or a JPEG
/// 2000 signature box or file type box. Fewer than four bytes show nothing.
pub open spec fn sniffed(header: Seq<u8>) -> Option<InputFormat> {
    if header.len() < 4 {
        None
    } else if header.take(4) == seq![0x49u8, 0x49, 0x2A, 0x00] || header.take(4) == seq![
        0x4Du8,
        0x4D,
        0x00,
        0x2A,
    ] {
        Some(InputFormat::GeoTiff)
    } else if header.len() >= 12 && header.subrange(4, 8) == seq![0x6Au8, 0x50, 0x20, 0x20] {
        Some(InputFormat::Jp2)
    } else if header.len() >= 8 && header.subrange(4, 8) == seq![0x66u8, 0x74, 0x79, 0x70] {
        Some(InputFormat::Jp2)
    } else {
        None
    }
}

/// Whether a file name extension is one of JPEG 2000 files, in either case.
pub open spec fn jp2_extension(extension: Option<Seq<char>>) -> bool {
    match extension {
        Some(text) => {
            ||| lowered(text) == "jp2"@
            ||| lowered(text) == "j2k"@
            ||| lowered(text) == "j2c"@
        },
        None => false,
    }
}

/// The extension as a sequence of characters.
pub open spec fn extension_chars(extension: Option<&str>) -> Option<Seq<char>> {
    match extension {
        Some(text) => Some(text@),
        None => None,
    }
}

/// The format of a file: what its first bytes show, else what its extension says.
pub open spec fn detected(header: Seq<u8>, extension: Option<Seq<char>>) -> InputFormat {
    match sniffed(header) {
        Some(format) => format,
        None => if jp2_extension(extension) {
            InputFormat::Jp2
        } else {
            InputFormat::GeoTiff
        },
    }
}

/// The format of a source. One that is read over HTTP is taken for a GeoTIFF.
pub open spec fn detected_source(
    source: Seq<char>,
    header: Seq<u8>,
    extension: Option<Seq<char>>,
) -> InputFormat {
    if http_source(source) {
        InputFormat::GeoTiff
    } else {
        detected(header, extension)
    }
}

fn four_are(bytes: &[u8], at: usize, a: u8, b: u8, c: u8, d: u8) -> (same: bool)
    requires
        at + 4 <= bytes@.len(),
    ensures
        same == (bytes@.subrange(at as int, at + 4) == seq![a, b, c, d]),
{
    let length: usize = bytes.len();
    let same: bool = bytes[at] == a && bytes[at + 1] == b && bytes[at + 2] == c && bytes[at + 3]
        == d;
    proof {
        let part = bytes@.subrange(at as int, at + 4);
        if same {
            assert(part =~= seq![a, b, c, d]);
        } else {
            assert(part[0] == bytes@[at as int]);
            assert(part[1] == bytes@[at + 1]);
            assert(part[2] == bytes@[at + 2]);
            assert(part[3] == bytes@[at + 3]);
            if part == seq![a, b, c, d] {
                assert(part[0] == a && part[1] == b && part[2] == c && part[3] == d);
            }
        }
    }
    same
}

/// The format that the first bytes of a file show.
pub fn sniff_magic(header: &[u8]) -> (format: Option<InputFormat>)
    ensures
        format == sniffed(header@),
{
    if header.len() < 4 {
        return None;
    }
    assert(header@.take(4) =~= header@.subrange(0, 4));
    if four_are(header, 0, 0x49, 0x49, 0x2A, 0x00) || four_are(header, 0, 0x4D, 0x4D, 0x00, 0x2A) {
        return Some(InputFormat::GeoTiff);
    }
    if header.len() >= 12 && four_are(header, 4, 0x6A, 0x50, 0x20, 0x20) {
        return Some(InputFormat::Jp2);
    }
    if header.len() >= 8 && four_are(header, 4, 0x66, 0x74, 0x79, 0x70) {
        return Some(InputFormat::Jp2);
    }
    None
}

/// Whether a file name extension is one of JPEG 2000 files.
pub fn is_jp2_extension(extension: Option<&str>) -> (jp2: bool)
    ensures
        jp2 == jp2_extension(extension_chars(extension)),
{
    match extension {
        Some(text) => lowered_equals(text, "jp2") || lowered_equals(text, "j2k") || lowered_equals(
            text,
            "j2c",
        ),
        None => false,
    }
}

/// The format of a file with these first bytes, as many as could be read, and this
/// extension.
pub fn detect(header: &[u8], extension: Option<&str>) -> (format: InputFormat)
    ensures
        format == detected(header@, extension_chars(extension)),
{
    match sniff_magic(header) {
        Some(format) => format,
        None => if is_jp2_extension(extension) {
            InputFormat::Jp2
        } else {
            InputFormat::GeoTiff
        },
    }
}

/// The format of a source.
pub fn detect_source(source: &str, header: &[u8], extension: Option<&str>) -> (format: InputFormat)
    ensures
        format == detected_source(source@, header@, extension_chars(extension)),
{
    if is_http_source(source) {
        return InputFormat::GeoTiff;
    }
    detect(header, extension)
}

/// Whether a source is a JPEG 2000 file.
pub fn is_jp2_path(source: &str, header: &[u8], extension: Option<&str>) -> (jp2: bool)
    ensures
        jp2 == (detected_source(source@, header@, extension_chars(extension)) == InputFormat::Jp2),
{
    match detect_source(source, header, extension) {
        InputFormat::Jp2 => true,
        InputFormat::GeoTiff => false,
    }
}

/// A file is what its first bytes say, whatever its name is: those of a TIFF in either byte
/// order, or those of a JPEG 2000 file. Only where they say nothing, the name decides.
pub proof fn law_content_goes_before_name(header: Seq<u8>, extension: Option<Seq<char>>)
    ensures
        header.len() >= 4 && header[0] == 0x49 && header[1] == 0x49 && header[2] == 0x2A
            && header[3] == 0 ==> detected(header, extension) is GeoTiff,
        header.len() >= 4 && header[0] == 0x4D && header[1] == 0x4D && header[2] == 0 && header[3]
            == 0x2A ==> detected(header, extension) is GeoTiff,
        header.len() >= 12 && header[0] == 0 && header[4] == 0x6A && header[5] == 0x50 && header[6]
            == 0x20 && header[7] == 0x20 ==> detected(header, extension) is Jp2,
        header.len() < 4 ==> (detected(header, extension) is Jp2 <==> jp2_extension(extension)),
        extension is None && header.len() < 4 ==> detected(header, extension) is GeoTiff,
{
    if header.len() >= 4 {
        assert(header.take(4) =~= seq![header[0], header[1], header[2], header[3]]);
        let little = seq![0x49u8, 0x49, 0x2A, 0x00];
        let big = seq![0x4Du8, 0x4D, 0x00, 0x2A];
        assert(little[0] == 0x49 && big[0] == 0x4D);
        if header[0] == 0x49 && header[1] == 0x49 && header[2] == 0x2A && header[3] == 0 {
            assert(header.take(4) =~= little);
        }
        if header[0] == 0x4D && header[1] == 0x4D && header[2] == 0 && header[3] == 0x2A {
            assert(header.take(4) =~= big);
        }
        if header[0] == 0 {
            assert(header.take(4)[0] == 0);
        }
    }
    if header.len() >= 12 && header[4] == 0x6A && header[5] == 0x50 && header[6] == 0x20
        && header[7] == 0x20 {
        assert(header.subrange(4, 8) =~= seq![0x6Au8, 0x50, 0x20, 0x20]);
    }
}

/// What is read from a web server is a TIFF, and all else is what its content or its name
/// says.
pub proof fn law_web_sources_are_tiffs(
    rest: Seq<char>,
    name: Seq<char>,
    header: Seq<u8>,
    extension: Option<Seq<char>>,
)
    ensures
        detected_source("http://"@ + rest, header, extension) is GeoTiff,
        detected_source("https://"@ + rest, header, extension) is GeoTiff,
        name.len() < 7 ==> detected_source(name, header, extension) == detected(header, extension),
{
    crate::open::law_web_addresses_are_remote(rest, name);
}

/// Files of boxes whose first box is a file type are JPEG 2000 files too. A file that begins
/// otherwise is one exactly if its name ends so, in either case.
pub proof fn law_names_decide_where_content_does_not(header: Seq<u8>, extension: Option<Seq<char>>)
    ensures
        header.len() >= 8 && header[0] == 0 && header[4] == 0x66 && header[5] == 0x74 && header[6]
            == 0x79 && header[7] == 0x70 ==> detected(header, extension) is Jp2,
        header.len() >= 8 && header[0] != 0x49 && header[0] != 0x4D && header[4] != 0x6A
            && header[4] != 0x66 ==> (detected(header, extension) is Jp2 <==> jp2_extension(
            extension,
        )),
        extension is None ==> !jp2_extension(extension),
        extension matches Some(name) ==> (jp2_extension(extension) <==> name.len() == 3 && (name[0]
            == 'j' || name[0] == 'J') && ((name[1] == '2' && (name[2] == 'k' || name[2] == 'K'
            || name[2] == 'c' || name[2] == 'C')) || ((name[1] == 'p' || name[1] == 'P') && name[2]
            == '2'))),
{
    if header.len() >= 8 {
        assert(header.take(4)[0] == header[0]);
        assert(header.subrange(4, 8)[0] == header[4]);
        let little = seq![0x49u8, 0x49, 0x2A, 0x00];
        let big = seq![0x4Du8, 0x4D, 0x00, 0x2A];
        let signature = seq![0x6Au8, 0x50, 0x20, 0x20];
        let kind = seq![0x66u8, 0x74, 0x79, 0x70];
        assert(little[0] == 0x49 && big[0] == 0x4D && signature[0] == 0x6A && kind[0] == 0x66);
        if header[4] == 0x66 && header[5] == 0x74 && header[6] == 0x79 && header[7] == 0x70 {
            assert(header.subrange(4, 8) =~= kind);
        }
    }
    if let Some(name) = extension {
        reveal_strlit("jp2");
        reveal_strlit("j2k");
        reveal_strlit("j2c");
        let low = lowered(name);
        assert(low.len() == name.len());
        assert("jp2"@.len() == 3 && "j2k"@.len() == 3 && "j2c"@.len() == 3);
        assert("jp2"@[0] == 'j' && "jp2"@[1] == 'p' && "jp2"@[2] == '2');
        assert("j2k"@[0] == 'j' && "j2k"@[1] == '2' && "j2k"@[2] == 'k');
        assert("j2c"@[0] == 'j' && "j2c"@[1] == '2' && "j2c"@[2] == 'c');
        if name.len() == 3 {
            lemma_lowered_char(name[0]);
            lemma_lowered_char(name[1]);
            lemma_lowered_char(name[2]);
        }
        if name.len() == 3 {
            assert(low =~= seq![low[0], low[1], low[2]]);
            assert(low == "jp2"@ <==> low[0] == 'j' && low[1] == 'p' && low[2] == '2') by {
                if low[0] == 'j' && low[1] == 'p' && low[2] == '2' {
                    assert(low =~= "jp2"@);
                }
            }
            assert(low == "j2k"@ <==> low[0] == 'j' && low[1] == '2' && low[2] == 'k') by {
                if low[0] == 'j' && low[1] == '2' && low[2] == 'k' {
                    assert(low =~= "j2k"@);
                }
            }
            assert(low == "j2c"@ <==> low[0] == 'j' && low[1] == '2' && low[2] == 'c') by {
                if low[0] == 'j' && low[1] == '2' && low[2] == 'c' {
                    assert(low =~= "j2c"@);
                }
            }
        }
    }
}

proof fn lemma_lowered_char(c: char)
    ensures
        ascii_lower(c) == 'j' <==> c == 'j' || c == 'J',
        ascii_lower(c) == 'p' <==> c == 'p' || c == 'P',
        ascii_lower(c) == 'k' <==> c == 'k' || c == 'K',
        ascii_lower(c) == 'c' <==> c == 'c' || c == 'C',
        ascii_lower(c) == '2' <==> c == '2',
{
    law_lowering_changes_capitals_only(seq![c], 0);
    assert(lowered(seq![c])[0] == ascii_lower(c));
    assert(seq![c][0] == c);
}

} // verus!
