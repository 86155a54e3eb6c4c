//! A summary of a raster for people to read.
use crate::input::profile::{ifd_photometric, photometric_in, IfdInfo, SourceInfo};
use crate::jp2::profile::Jp2Raster;
use crate::text::{append_decimal, decimal};
use crate::tiff::{
    compression_from_code, compression_name, compression_of_code, photometric_name,
    sample_format_from_code, sample_format_of_code, SampleFormat,
};
use vstd::prelude::*;
use vstd::string::StringExecFns;

verus! {

/// What a summary says of a raster. Coordinates are given as text.
#[derive(Debug)]
pub struct RasterInfo {
    pub driver: String,
    pub path: String,
    pub width: u32,
    pub height: u32,
    pub bands: u32,
    pub bits_per_sample: u16,
    pub sample_format: String,
    pub photometric: String,
    pub compression: String,
    pub tiled: bool,
    pub block_x: Option<u32>,
    pub block_y: Option<u32>,
    pub nodata: Option<String>,
    pub epsg: Option<u32>,
    pub crs_wkt: Option<String>,
    pub transform: Option<String>,
    pub bounds: Option<String>,
    pub overviews: Vec<OverviewInfo>,
}

/// What a summary says of an overview.
#[derive(Debug, Clone, Copy, PartialEq, Eq, Structural)]
pub struct OverviewInfo {
    pub index: usize,
    pub width: u32,
    pub height: u32,
    pub block_x: Option<u32>,
    pub block_y: Option<u32>,
}

/// How a block size is added to a layout; nothing where it is not known.
pub open spec fn block_size(block_x: Option<u32>, block_y: Option<u32>) -> Seq<char> {
    match (block_x, block_y) {
        (Some(x), Some(y)) => Seq::<char>::empty() + ", block "@ + decimal(x as nat) + "x"@
            + decimal(y as nat),
        _ => Seq::empty(),
    }
}

fn block_text(block_x: Option<u32>, block_y: Option<u32>) -> (text: String)
    ensures
        text@ == block_size(block_x, block_y),
{
    let mut text = String::new();
    if let (Some(x), Some(y)) = (block_x, block_y) {
        text.append(", block ");
        append_decimal(&mut text, x as u64);
        text.append("x");
        append_decimal(&mut text, y as u64);
    }
    text
}

impl RasterInfo {
    /// The block size as it stands behind the layout.
    pub fn block_size_text(&self) -> (text: String)
        ensures
            text@ == block_size(self.block_x, self.block_y),
    {
        block_text(self.block_x, self.block_y)
    }
}

impl OverviewInfo {
    /// The block size as it stands behind the size of the overview.
    pub fn block_size_text(&self) -> (text: String)
        ensures
            text@ == block_size(self.block_x, self.block_y),
    {
        block_text(self.block_x, self.block_y)
    }
}

/// A text with a line behind it that says one thing.
pub open spec fn with_line(text: Seq<char>, label: Seq<char>, value: Seq<char>) -> Seq<char> {
    text + label + value + "\n"@
}

fn append_line(text: &mut String, label: &str, value: &str)
    ensures
        final(text)@ == with_line(old(text)@, label@, value@),
{
    text.append(label);
    text.append(value);
    text.append("\n");
}

/// A text with a line behind it, where there is something to say.
pub open spec fn with_optional_line(
    text: Seq<char>,
    label: Seq<char>,
    value: Option<String>,
    end: Seq<char>,
) -> Seq<char> {
    match value {
        None => text,
        Some(value) => text + label + value@ + end,
    }
}

fn append_optional_line(text: &mut String, label: &str, value: &Option<String>, end: &str)
    ensures
        final(text)@ == with_optional_line(old(text)@, label@, *value, end@),
{
    if let Some(value) = value {
        text.append(label);
        text.append(value.as_str());
        text.append(end);
    }
}

/// The line of an overview behind a text.
pub open spec fn with_overview(text: Seq<char>, overview: OverviewInfo) -> Seq<char> {
    text + "  "@ + decimal(overview.index as nat) + ": "@ + decimal(overview.width as nat) + "x"@
        + decimal(overview.height as nat) + block_size(overview.block_x, overview.block_y) + "\n"@
}

/// The lines of overviews behind a text.
pub open spec fn with_overviews(text: Seq<char>, overviews: Seq<OverviewInfo>) -> Seq<char>
    decreases overviews.len(),
{
    if overviews.len() == 0 {
        text
    } else {
        with_overview(with_overviews(text, overviews.drop_last()), overviews.last())
    }
}

/// The part of a summary that says how pixels are stored.
pub open spec fn layout_lines(info: RasterInfo) -> Seq<char> {
    let text = with_line(Seq::empty(), "Driver: "@, info.driver@);
    let text = with_line(text, "Files: "@, info.path@);
    let text = text + "Size is "@ + decimal(info.width as nat) + ", "@ + decimal(info.height as nat)
        + "\n"@;
    let text = text + "Band count: "@ + decimal(info.bands as nat) + " ("@ + decimal(
        info.bits_per_sample as nat,
    ) + "-bit "@ + info.sample_format@ + ")\n"@;
    let text = with_line(text, "Photometric: "@, info.photometric@);
    let text = text + "Layout: "@ + (if info.tiled {
        "tiled"@
    } else {
        "striped"@
    }) + block_size(info.block_x, info.block_y) + "\n"@;
    with_line(text, "Compression: "@, info.compression@)
}

/// The part of a summary that says what values mean and where they lie.
pub open spec fn place_lines(text: Seq<char>, info: RasterInfo) -> Seq<char> {
    let text = with_optional_line(text, "NoData: "@, info.nodata, "\n"@);
    let text = match info.epsg {
        None => text,
        Some(epsg) => text + "EPSG: "@ + decimal(epsg as nat) + "\n"@,
    };
    let text = with_optional_line(text, "Bounds: ("@, info.bounds, ")\n"@);
    with_optional_line(text, "GeoTransform: ["@, info.transform, "]\n"@)
}

/// The part of a summary that lists overviews.
pub open spec fn overview_lines(text: Seq<char>, overviews: Seq<OverviewInfo>) -> Seq<char> {
    if overviews.len() == 0 {
        text + "Overviews: none\n"@
    } else {
        with_overviews(text + "Overviews: "@ + decimal(overviews.len()) + "\n"@, overviews)
    }
}

fn layout_text(info: &RasterInfo) -> (text: String)
    ensures
        text@ == layout_lines(*info),
{
    let mut text = String::new();
    append_line(&mut text, "Driver: ", info.driver.as_str());
    append_line(&mut text, "Files: ", info.path.as_str());
    text.append("Size is ");
    append_decimal(&mut text, info.width as u64);
    text.append(", ");
    append_decimal(&mut text, info.height as u64);
    text.append("\n");
    text.append("Band count: ");
    append_decimal(&mut text, info.bands as u64);
    text.append(" (");
    append_decimal(&mut text, info.bits_per_sample as u64);
    text.append("-bit ");
    text.append(info.sample_format.as_str());
    text.append(")\n");
    append_line(&mut text, "Photometric: ", info.photometric.as_str());
    text.append("Layout: ");
    text.append(
        if info.tiled {
            "tiled"
        } else {
            "striped"
        },
    );
    text.append(info.block_size_text().as_str());
    text.append("\n");
    append_line(&mut text, "Compression: ", info.compression.as_str());
    text
}

fn append_overviews(text: &mut String, overviews: &Vec<OverviewInfo>)
    ensures
        final(text)@ == overview_lines(old(text)@, overviews@),
{
    if overviews.len() == 0 {
        text.append("Overviews: none\n");
        return ;
    }
    text.append("Overviews: ");
    append_decimal(text, overviews.len() as u64);
    text.append("\n");
    let ghost heading = text@;
    let mut i: usize = 0;
    while i < overviews.len()
        invariant
            i <= overviews@.len(),
            text@ == with_overviews(heading, overviews@.take(i as int)),
        decreases overviews@.len() - i,
    {
        let overview = overviews[i];
        text.append("  ");
        append_decimal(text, overview.index as u64);
        text.append(": ");
        append_decimal(text, overview.width as u64);
        text.append("x");
        append_decimal(text, overview.height as u64);
        text.append(overview.block_size_text().as_str());
        text.append("\n");
        assert(overviews@.take(i + 1).drop_last() =~= overviews@.take(i as int));
        i = i + 1;
    }
    assert(overviews@.take(i as int) =~= overviews@);
}

/// The summary of a raster, line by line.
pub fn format_text(info: &RasterInfo) -> (text: String)
    ensures
        text@ == overview_lines(place_lines(layout_lines(*info), *info), info.overviews@),
{
    let mut text = layout_text(info);
    append_optional_line(&mut text, "NoData: ", &info.nodata, "\n");
    if let Some(epsg) = info.epsg {
        text.append("EPSG: ");
        append_decimal(&mut text, epsg as u64);
        text.append("\n");
    }
    append_optional_line(&mut text, "Bounds: (", &info.bounds, ")\n");
    append_optional_line(&mut text, "GeoTransform: [", &info.transform, "]\n");
    append_overviews(&mut text, &info.overviews);
    text
}

/// The name of a sample format.
pub open spec fn format_name(format: SampleFormat) -> Seq<char> {
    match format {
        SampleFormat::Uint => "UInt"@,
        SampleFormat::Int => "Int"@,
        SampleFormat::Float => "Float"@,
    }
}

/// The name of a sample format.
pub fn sample_format_name(format: SampleFormat) -> (name: String)
    ensures
        name@ == format_name(format),
{
    match format {
        SampleFormat::Uint => "UInt".to_owned(),
        SampleFormat::Int => "Int".to_owned(),
        SampleFormat::Float => "Float".to_owned(),
    }
}

/// How a tag value without a name is shown.
pub open spec fn code_name(code: u16) -> Seq<char> {
    "code "@ + decimal(code as nat)
}

fn code_text(code: u16) -> (text: String)
    ensures
        text@ == code_name(code),
{
    let mut text = "code ".to_owned();
    append_decimal(&mut text, code as u64);
    text
}

/// What a summary says of the overview with a directory.
pub open spec fn overview_of(ifd: IfdInfo, index: int) -> OverviewInfo {
    OverviewInfo {
        index: index as usize,
        width: ifd.width,
        height: ifd.height,
        block_x: ifd.tile_width,
        block_y: ifd.tile_height,
    }
}

fn summarize_overviews(overviews: &Vec<IfdInfo>) -> (list: Vec<OverviewInfo>)
    ensures
        list@.len() == overviews@.len(),
        forall|i: int|
            0 <= i < list@.len() ==> #[trigger] list@[i] == overview_of(overviews@[i], i),
{
    let mut list: Vec<OverviewInfo> = Vec::new();
    let mut index: usize = 0;
    while index < overviews.len()
        invariant
            index <= overviews@.len(),
            list@.len() == index,
            forall|i: int|
                0 <= i < list@.len() ==> #[trigger] list@[i] == overview_of(overviews@[i], i),
        decreases overviews@.len() - index,
    {
        let ifd = overviews[index];
        list.push(
            OverviewInfo {
                index,
                width: ifd.width,
                height: ifd.height,
                block_x: ifd.tile_width,
                block_y: ifd.tile_height,
            },
        );
        index = index + 1;
    }
    list
}

/// The texts of a summary that come from the file around its pixels.
#[derive(Debug)]
pub struct FileTexts {
    pub path: String,
    pub nodata: Option<String>,
    pub epsg: Option<u32>,
    pub transform: Option<String>,
    pub bounds: Option<String>,
}

/// What a summary says of a GeoTIFF.
pub fn geotiff_info(
    source: &SourceInfo,
    bits_per_sample: u16,
    sample_format_code: u16,
    texts: FileTexts,
) -> (info: RasterInfo)
    requires
        source.well_formed(),
    ensures
        info.driver@ == "GeoTIFF"@,
        info.path == texts.path,
        info.width == source.base().width,
        info.height == source.base().height,
        info.bands == source.band_count,
        info.bits_per_sample == bits_per_sample,
        info.sample_format@ == (match sample_format_of_code(sample_format_code) {
            Some(format) => format_name(format),
            None => code_name(sample_format_code),
        }),
        info.photometric@ == (match photometric_in(source.base()) {
            None => "unknown"@,
            Some(photometric) => photometric_name(photometric),
        }),
        info.compression@ == (match compression_of_code(source.base().compression) {
            Some(compression) => compression_name(compression),
            None => code_name(source.base().compression),
        }),
        info.tiled == source.base().tiled,
        info.block_x == source.base().tile_width,
        info.block_y == source.base().tile_height,
        info.nodata == texts.nodata,
        info.epsg == texts.epsg,
        info.crs_wkt is None,
        info.transform == texts.transform,
        info.bounds == texts.bounds,
        info.overviews@.len() == source.overviews@.len(),
        forall|i: int|
            0 <= i < info.overviews@.len() ==> #[trigger] info.overviews@[i] == overview_of(
                source.overviews@[i],
                i,
            ),
{
    let ifd = source.ifds[source.base_ifd];
    let sample_format = match sample_format_from_code(sample_format_code) {
        Some(format) => sample_format_name(format),
        None => code_text(sample_format_code),
    };
    let compression = match compression_from_code(ifd.compression) {
        Some(compression) => compression.name().to_owned(),
        None => code_text(ifd.compression),
    };
    let photometric = match ifd_photometric(&ifd) {
        None => "unknown",
        Some(photometric) => photometric.name(),
    };
    RasterInfo {
        driver: "GeoTIFF".to_owned(),
        path: texts.path,
        width: ifd.width,
        height: ifd.height,
        bands: source.band_count,
        bits_per_sample,
        sample_format,
        photometric: photometric.to_owned(),
        compression,
        tiled: ifd.tiled,
        block_x: ifd.tile_width,
        block_y: ifd.tile_height,
        nodata: texts.nodata,
        epsg: texts.epsg,
        crs_wkt: None,
        transform: texts.transform,
        bounds: texts.bounds,
        overviews: summarize_overviews(&source.overviews),
    }
}

/// What a summary says of a JPEG 2000 file.
pub fn jp2_info(raster: &Jp2Raster, texts: FileTexts) -> (info: RasterInfo)
    ensures
        info.driver@ == "JP2OpenJPEG"@,
        info.path == texts.path,
        info.width == raster.width,
        info.height == raster.height,
        info.bands == raster.bands,
        info.bits_per_sample == raster.bits_per_sample,
        info.sample_format@ == "UInt"@,
        info.photometric@ == photometric_name(raster.photometric),
        info.compression@ == "JPEG2000"@,
        info.tiled,
        info.block_x is None,
        info.block_y is None,
        info.nodata is None,
        info.epsg == texts.epsg,
        info.crs_wkt is None,
        info.transform == texts.transform,
        info.bounds == texts.bounds,
        info.overviews@.len() == 0,
{
    RasterInfo {
        driver: "JP2OpenJPEG".to_owned(),
        path: texts.path,
        width: raster.width,
        height: raster.height,
        bands: raster.bands,
        bits_per_sample: raster.bits_per_sample as u16,
        sample_format: "UInt".to_owned(),
        photometric: raster.photometric.name().to_owned(),
        compression: "JPEG2000".to_owned(),
        tiled: true,
        block_x: None,
        block_y: None,
        nodata: None,
        epsg: texts.epsg,
        crs_wkt: None,
        transform: texts.transform,
        bounds: texts.bounds,
        overviews: Vec::new(),
    }
}

/// Whether a part stands in a text as it is.
pub open spec fn states(text: Seq<char>, part: Seq<char>) -> bool {
    exists|at: int|
        0 <= at <= text.len() - part.len() && #[trigger] text.subrange(at, at + part.len()) == part
}

proof fn lemma_states(before: Seq<char>, part: Seq<char>, behind: Seq<char>, text: Seq<char>)
    requires
        text =~= before + part + behind,
    ensures
        states(text, part),
{
    let at = before.len() as int;
    assert(text.subrange(at, at + part.len()) =~= part);
}

proof fn lemma_states_longer(text: Seq<char>, part: Seq<char>, behind: Seq<char>)
    requires
        states(text, part),
    ensures
        states(text + behind, part),
{
    let at = choose|at: int|
        0 <= at <= text.len() - part.len() && #[trigger] text.subrange(at, at + part.len()) == part;
    assert((text + behind).subrange(at, at + part.len()) =~= part);
}

/// A report states the size of the raster, width first, and its bands.
pub proof fn law_report_states_size_and_bands(info: RasterInfo)
    ensures
        states(
            layout_lines(info),
            "Size is "@ + decimal(info.width as nat) + ", "@ + decimal(info.height as nat) + "\n"@,
        ),
        states(
            layout_lines(info),
            "Band count: "@ + decimal(info.bands as nat) + " ("@ + decimal(
                info.bits_per_sample as nat,
            ) + "-bit "@ + info.sample_format@ + ")\n"@,
        ),
        states(layout_lines(info), "Driver: "@ + info.driver@ + "\n"@),
        states(layout_lines(info), "Files: "@ + info.path@ + "\n"@),
        states(layout_lines(info), "Photometric: "@ + info.photometric@ + "\n"@),
        states(layout_lines(info), "Compression: "@ + info.compression@ + "\n"@),
{
    let size = "Size is "@ + decimal(info.width as nat) + ", "@ + decimal(info.height as nat)
        + "\n"@;
    let bands = "Band count: "@ + decimal(info.bands as nat) + " ("@ + decimal(
        info.bits_per_sample as nat,
    ) + "-bit "@ + info.sample_format@ + ")\n"@;
    let kind = if info.tiled {
        "tiled"@
    } else {
        "striped"@
    };
    let block = block_size(info.block_x, info.block_y);
    let lines = seq![
        "Driver: "@ + info.driver@ + "\n"@,
        "Files: "@ + info.path@ + "\n"@,
        size,
        bands,
        "Photometric: "@ + info.photometric@ + "\n"@,
        "Layout: "@ + kind + block + "\n"@,
        "Compression: "@ + info.compression@ + "\n"@,
    ];
    let one = with_line(Seq::empty(), "Driver: "@, info.driver@);
    let two = with_line(one, "Files: "@, info.path@);
    let three = two + "Size is "@ + decimal(info.width as nat) + ", "@ + decimal(
        info.height as nat,
    ) + "\n"@;
    let four = three + "Band count: "@ + decimal(info.bands as nat) + " ("@ + decimal(
        info.bits_per_sample as nat,
    ) + "-bit "@ + info.sample_format@ + ")\n"@;
    let five = with_line(four, "Photometric: "@, info.photometric@);
    let six = five + "Layout: "@ + kind + block + "\n"@;
    let seven = with_line(six, "Compression: "@, info.compression@);
    assert(seven == layout_lines(info));
    assert(joined_lines(lines.take(0)) == Seq::<char>::empty());
    lemma_next_line(lines, 0, Seq::empty(), one);
    lemma_next_line(lines, 1, one, two);
    lemma_next_line(lines, 2, two, three);
    lemma_next_line(lines, 3, three, four);
    lemma_next_line(lines, 4, four, five);
    lemma_next_line(lines, 5, five, six);
    lemma_next_line(lines, 6, six, seven);
    assert(lines.take(7) =~= lines);
    lemma_line_is_stated(lines, 0);
    lemma_line_is_stated(lines, 1);
    lemma_line_is_stated(lines, 2);
    lemma_line_is_stated(lines, 3);
    lemma_line_is_stated(lines, 4);
    lemma_line_is_stated(lines, 6);
}

/// Lines one behind the other.
spec fn joined_lines(lines: Seq<Seq<char>>) -> Seq<char>
    decreases lines.len(),
{
    if lines.len() == 0 {
        Seq::empty()
    } else {
        joined_lines(lines.drop_last()) + lines.last()
    }
}

proof fn lemma_next_line(lines: Seq<Seq<char>>, i: int, before: Seq<char>, behind: Seq<char>)
    requires
        0 <= i < lines.len(),
        before == joined_lines(lines.take(i)),
        behind =~= before + lines[i],
    ensures
        behind == joined_lines(lines.take(i + 1)),
{
    assert(lines.take(i + 1).drop_last() =~= lines.take(i));
}

proof fn lemma_line_is_stated(lines: Seq<Seq<char>>, i: int)
    requires
        0 <= i < lines.len(),
    ensures
        states(joined_lines(lines), lines[i]),
    decreases lines.len(),
{
    let front = joined_lines(lines.drop_last());
    if i == lines.len() - 1 {
        lemma_states(front, lines[i], Seq::empty(), joined_lines(lines));
    } else {
        lemma_line_is_stated(lines.drop_last(), i);
        lemma_states_longer(front, lines[i], lines.last());
    }
}

/// A report states each overview with its number and its size, and how many there are.
pub proof fn law_report_states_overviews(text: Seq<char>, overviews: Seq<OverviewInfo>, i: int)
    requires
        0 <= i < overviews.len(),
    ensures
        states(overview_lines(text, overviews), "Overviews: "@ + decimal(overviews.len()) + "\n"@),
        states(
            overview_lines(text, overviews),
            "  "@ + decimal(overviews[i].index as nat) + ": "@ + decimal(
                overviews[i].width as nat,
            ) + "x"@ + decimal(overviews[i].height as nat) + block_size(
                overviews[i].block_x,
                overviews[i].block_y,
            ) + "\n"@,
        ),
{
    let count = "Overviews: "@ + decimal(overviews.len()) + "\n"@;
    let start = text + "Overviews: "@ + decimal(overviews.len()) + "\n"@;
    lemma_states(text, count, Seq::empty(), start);
    lemma_overviews_are_kept(start, overviews, count);
    lemma_overview_is_stated(start, overviews, i);
}

proof fn lemma_overviews_are_kept(text: Seq<char>, overviews: Seq<OverviewInfo>, part: Seq<char>)
    requires
        states(text, part),
    ensures
        states(with_overviews(text, overviews), part),
    decreases overviews.len(),
{
    if overviews.len() > 0 {
        let front = with_overviews(text, overviews.drop_last());
        lemma_overviews_are_kept(text, overviews.drop_last(), part);
        let last = overviews.last();
        let line = "  "@ + decimal(last.index as nat) + ": "@ + decimal(last.width as nat) + "x"@
            + decimal(last.height as nat) + block_size(last.block_x, last.block_y) + "\n"@;
        assert(with_overview(front, last) =~= front + line);
        lemma_states_longer(front, part, line);
    }
}

proof fn lemma_overview_is_stated(text: Seq<char>, overviews: Seq<OverviewInfo>, i: int)
    requires
        0 <= i < overviews.len(),
    ensures
        states(
            with_overviews(text, overviews),
            "  "@ + decimal(overviews[i].index as nat) + ": "@ + decimal(
                overviews[i].width as nat,
            ) + "x"@ + decimal(overviews[i].height as nat) + block_size(
                overviews[i].block_x,
                overviews[i].block_y,
            ) + "\n"@,
        ),
    decreases overviews.len(),
{
    let front = with_overviews(text, overviews.drop_last());
    let last = overviews.last();
    let line = "  "@ + decimal(last.index as nat) + ": "@ + decimal(last.width as nat) + "x"@
        + decimal(last.height as nat) + block_size(last.block_x, last.block_y) + "\n"@;
    let whole = with_overviews(text, overviews);
    assert(whole =~= front + line);
    if i == overviews.len() - 1 {
        lemma_states(front, line, Seq::empty(), whole);
    } else {
        lemma_overview_is_stated(text, overviews.drop_last(), i);
        assert(overviews.drop_last()[i] == overviews[i]);
        let own = overviews[i];
        lemma_states_longer(
            front,
            "  "@ + decimal(own.index as nat) + ": "@ + decimal(own.width as nat) + "x"@ + decimal(
                own.height as nat,
            ) + block_size(own.block_x, own.block_y) + "\n"@,
            line,
        );
    }
}

/// What is known of the place of a raster is stated behind the rest of the report: the value
/// for missing data, the code of the coordinate system, the bounds and the transform.
pub proof fn law_report_states_place(text: Seq<char>, info: RasterInfo)
    ensures
        text.is_prefix_of(place_lines(text, info)),
        info.nodata matches Some(value) ==> states(
            place_lines(text, info),
            "NoData: "@ + value@ + "\n"@,
        ),
        info.epsg matches Some(code) ==> states(
            place_lines(text, info),
            "EPSG: "@ + decimal(code as nat) + "\n"@,
        ),
        info.bounds matches Some(value) ==> states(
            place_lines(text, info),
            "Bounds: ("@ + value@ + ")\n"@,
        ),
        info.transform matches Some(value) ==> states(
            place_lines(text, info),
            "GeoTransform: ["@ + value@ + "]\n"@,
        ),
{
    let nodata = match info.nodata {
        None => Seq::empty(),
        Some(value) => "NoData: "@ + value@ + "\n"@,
    };
    let epsg = match info.epsg {
        None => Seq::empty(),
        Some(code) => "EPSG: "@ + decimal(code as nat) + "\n"@,
    };
    let bounds = match info.bounds {
        None => Seq::empty(),
        Some(value) => "Bounds: ("@ + value@ + ")\n"@,
    };
    let transform = match info.transform {
        None => Seq::empty(),
        Some(value) => "GeoTransform: ["@ + value@ + "]\n"@,
    };
    let lines = seq![text, nodata, epsg, bounds, transform];
    let one = with_optional_line(text, "NoData: "@, info.nodata, "\n"@);
    let two = match info.epsg {
        None => one,
        Some(code) => one + "EPSG: "@ + decimal(code as nat) + "\n"@,
    };
    let three = with_optional_line(two, "Bounds: ("@, info.bounds, ")\n"@);
    let four = with_optional_line(three, "GeoTransform: ["@, info.transform, "]\n"@);
    assert(joined_lines(lines.take(0)) == Seq::<char>::empty());
    lemma_next_line(lines, 0, Seq::empty(), text);
    lemma_next_line(lines, 1, text, one);
    lemma_next_line(lines, 2, one, two);
    lemma_next_line(lines, 3, two, three);
    lemma_next_line(lines, 4, three, four);
    assert(lines.take(5) =~= lines);
    lemma_line_is_stated(lines, 1);
    lemma_line_is_stated(lines, 2);
    lemma_line_is_stated(lines, 3);
    lemma_line_is_stated(lines, 4);
    lemma_first_line_stands_first(lines);
}

proof fn lemma_first_line_stands_first(lines: Seq<Seq<char>>)
    requires
        lines.len() > 0,
    ensures
        lines[0].is_prefix_of(joined_lines(lines)),
    decreases lines.len(),
{
    let front = lines.drop_last();
    if front.len() == 0 {
        assert(joined_lines(front) == Seq::<char>::empty());
        assert(joined_lines(lines) =~= lines[0]);
    } else {
        lemma_first_line_stands_first(front);
        assert(front[0] == lines[0]);
        assert(joined_lines(lines).take(lines[0].len() as int) =~= joined_lines(front).take(
            lines[0].len() as int,
        ));
    }
}

/// An overview is listed with its place, and the size and the blocks of its directory.
pub proof fn law_listed_overviews_are_directories(ifd: IfdInfo, index: usize)
    ensures
        ({
            let listed = overview_of(ifd, index as int);
            &&& listed.index == index
            &&& listed.width == ifd.width
            &&& listed.height == ifd.height
            &&& listed.block_x == ifd.tile_width
            &&& listed.block_y == ifd.tile_height
        }),
{
}

} // verus!
