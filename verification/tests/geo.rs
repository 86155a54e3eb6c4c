use gdal_alt_core::geo::{
    extract_jp2_xml, parse_epsg, parse_gmljp2, parse_offset_vectors, parse_prj_epsg,
    parse_world_file, read_box_header, BoxError, GmlError, WorldFileError,
};
use gdal_alt_core::jp2::georef::{gml_metadata, resolve_georef, Jp2Georef};

fn number(text: &str, (start, end): (usize, usize)) -> f64 {
    text[start..end].parse().unwrap()
}

#[test]
fn parses_world_file() {
    let contents = "10\n0\n0\n-10\n300005\n2600035\n";
    let file = parse_world_file(contents).unwrap();
    let pixel_width = number(contents, file.pixel_width);
    let pixel_height = number(contents, file.pixel_height);
    let origin_x = number(contents, file.center_x) - pixel_width * 0.5;
    let origin_y = number(contents, file.center_y) - pixel_height * 0.5;
    assert!((pixel_width - 10.0).abs() < 1e-6);
    assert!((pixel_height + 10.0).abs() < 1e-6);
    assert!((origin_x - 300000.0).abs() < 1e-6);
    assert!((origin_y - 2600040.0).abs() < 1e-6);
}

fn sentinel2() -> &'static str {
    r#"<?xml version='1.0' encoding='UTF-8'?>
<gml:FeatureCollection xmlns:gml="http://www.opengis.net/gml">
  <gml:origin>
    <gml:Point srsName="urn:ogc:def:crs:EPSG::32642">
      <gml:pos>300005 2600035</gml:pos>
    </gml:Point>
  </gml:origin>
  <gml:offsetVector srsName="urn:ogc:def:crs:EPSG::32642">10 0</gml:offsetVector>
  <gml:offsetVector srsName="urn:ogc:def:crs:EPSG::32642">0 -10</gml:offsetVector>
</gml:FeatureCollection>"#
}

#[test]
fn parses_sentinel2_gml_sample() {
    let xml = sentinel2();
    let grid = parse_gmljp2(xml).unwrap();
    assert_eq!(grid.epsg, 32642);
    let px = number(xml, grid.vectors[0].0);
    let ry = number(xml, grid.vectors[1].1);
    let origin_x = number(xml, grid.origin.0) - px * 0.5;
    let origin_y = number(xml, grid.origin.1) - ry * 0.5;
    assert!((origin_x - 300000.0).abs() < 1e-6);
    assert!((px - 10.0).abs() < 1e-6);
    assert!((origin_y - 2600040.0).abs() < 1e-6);
    assert!((ry + 10.0).abs() < 1e-6);
}

#[test]
fn world_files_skip_empty_lines_and_blanks() {
    let contents = "\r\n  1.5 \r\n\n2\n \t\n3\n4\n5\n6\n7\n";
    let file = parse_world_file(contents).unwrap();
    let text = |(start, end): (usize, usize)| &contents[start..end];
    assert_eq!(text(file.pixel_width), "1.5");
    assert_eq!(text(file.skew_y), "2");
    assert_eq!(text(file.skew_x), "3");
    assert_eq!(text(file.pixel_height), "4");
    assert_eq!(text(file.center_x), "5");
    assert_eq!(text(file.center_y), "6");
}

#[test]
fn world_files_have_six_lines() {
    let error = |text| parse_world_file(text).unwrap_err();
    assert_eq!(error("1\n2"), WorldFileError::TooFewLines { found: 2 });
    assert_eq!(error("1\n2\n3\n\n4\n5\n"), WorldFileError::TooFewLines { found: 5 });
    assert_eq!(error(""), WorldFileError::TooFewLines { found: 0 });
}

#[test]
fn white_space_of_every_width_ends_a_word() {
    let contents = "\u{2003}12\u{a0}\n\u{3000}7 8\u{1680}\n3\n4\n5\n6";
    let file = parse_world_file(contents).unwrap();
    let text = |(start, end): (usize, usize)| &contents[start..end];
    assert_eq!(text(file.pixel_width), "12");
    assert_eq!(text(file.skew_y), "7 8");
}

#[test]
fn gml_errors_name_what_is_missing() {
    let gml = |text: &str| parse_gmljp2(text).unwrap_err();
    assert_eq!(gml("<gml:origin>"), GmlError::EpsgNotFound);
    assert_eq!(gml("EPSG::"), GmlError::InvalidEpsg);
    assert_eq!(gml("EPSG::99999"), GmlError::InvalidEpsg);
    assert_eq!(gml("EPSG::4326"), GmlError::ElementNotFound);
    assert_eq!(gml("EPSG::4326<gml:origin>"), GmlError::PosNotFound);
    assert_eq!(gml("EPSG::4326<gml:origin><gml:pos>1 2"), GmlError::PosNotClosed);
    let head = "EPSG::4326<gml:origin><gml:pos>1 2</gml:pos>";
    assert_eq!(gml(head), GmlError::TooFewOffsetVectors);
    assert_eq!(
        gml(&format!("{head}<gml:offsetVector")),
        GmlError::MalformedOffsetVector
    );
    assert_eq!(
        gml(&format!("{head}<gml:offsetVector>1 2")),
        GmlError::UnclosedOffsetVector
    );
    let one = format!("{head}<gml:offsetVector>1 2</gml:offsetVector>");
    assert_eq!(gml(&one), GmlError::TooFewOffsetVectors);
    assert_eq!(parse_offset_vectors(&one).unwrap().len(), 1);
}

#[test]
fn coordinates_that_are_missing_are_errors() {
    let gml = |origin: &str, vectors: &[&str]| {
        let vectors: String = vectors
            .iter()
            .map(|text| format!("<gml:offsetVector>{text}</gml:offsetVector>"))
            .collect();
        let xml = format!("EPSG::1<gml:origin><gml:pos>{origin}</gml:pos>{vectors}");
        parse_gmljp2(&xml).map(|grid| grid.vectors.len())
    };
    assert_eq!(gml("1 2", &["3 4", "5 6 7"]), Ok(2));
    assert_eq!(gml("1 2", &["3 4", "5 6", "7 8"]), Ok(3));
    assert_eq!(gml(" ", &["3 4", "5 6"]), Err(GmlError::MissingFirstCoordinate));
    assert_eq!(gml(" 7 ", &["3 4", "5 6"]), Err(GmlError::MissingSecondCoordinate));
    assert_eq!(gml("1 2", &["", "5 6"]), Err(GmlError::MissingFirstCoordinate));
    assert_eq!(gml("1 2", &["3 4", "5"]), Err(GmlError::MissingSecondCoordinate));
    assert_eq!(gml("1 2", &["3 4", "5 6", "7"]), Err(GmlError::MissingSecondCoordinate));
}

#[test]
fn codes_are_read_from_urns_and_prj_files() {
    assert_eq!(parse_epsg("x EPSG::3857y EPSG::1"), Ok(3857));
    assert_eq!(parse_prj_epsg("AUTHORITY[\"EPSG\",4326\"]"), Some(4326));
    assert_eq!(parse_prj_epsg("AUTHORITY[\"EPSG\",\"4326\"]"), Some(4326));
    assert_eq!(
        parse_prj_epsg("PROJCS[\"UTM 42N\",AUTHORITY[\"EPSG\",\"32642\"]]"),
        Some(32642)
    );
    assert_eq!(parse_prj_epsg("AUTHORITY[\"EPSG\",\"\"]"), None);
    assert_eq!(parse_prj_epsg("nothing"), None);
}

fn box_of(kind: &[u8; 4], payload: &[u8]) -> Vec<u8> {
    let mut bytes = ((payload.len() + 8) as u32).to_be_bytes().to_vec();
    bytes.extend_from_slice(kind);
    bytes.extend_from_slice(payload);
    bytes
}

#[test]
fn xml_is_found_inside_other_boxes() {
    let inner = box_of(b"xml ", b"<a/>");
    let mut file = box_of(b"jP  ", b"1234");
    file.extend(box_of(b"asoc", &inner));
    assert_eq!(extract_jp2_xml(&file), Ok("<a/>".to_string()));
    assert_eq!(extract_jp2_xml(&box_of(b"free", &inner)), Err(BoxError::NoXmlBox));
}

#[test]
fn box_errors_name_the_place() {
    assert_eq!(extract_jp2_xml(&[0, 0, 0, 9, b'x', b'm', b'l', b' ']), Err(BoxError::TruncatedBox { offset: 0 }));
    assert_eq!(
        extract_jp2_xml(&[0, 0, 0, 1, b'x', b'm', b'l', b' ']),
        Err(BoxError::TruncatedLength { offset: 0 })
    );
    assert_eq!(
        extract_jp2_xml(&[0, 0, 0, 5, b'x', b'm', b'l', b' ']),
        Err(BoxError::InvalidSize { offset: 0 })
    );
    assert_eq!(extract_jp2_xml(&box_of(b"xml ", &[0xff])), Err(BoxError::InvalidUtf8));
    assert!(matches!(
        read_box_header(&[0; 4], 0, 4),
        Err(BoxError::TruncatedHeader { offset: 0 })
    ));
}

#[test]
fn metadata_go_before_a_world_file() {
    let file = box_of(b"xml ", sentinel2().as_bytes());
    let (xml, grid) = gml_metadata(&file).unwrap();
    assert_eq!(xml, sentinel2());
    assert_eq!(grid.epsg, 32642);
    assert!(gml_metadata(&box_of(b"xml ", b"<a/>")).is_none());
    assert!(gml_metadata(&[]).is_none());
    assert_eq!(
        resolve_georef(Some(32642), true, Some(1)),
        Some(Jp2Georef::Gml { epsg: 32642 })
    );
    assert_eq!(
        resolve_georef(None, true, Some(3857)),
        Some(Jp2Georef::WorldFile { prj_epsg: Some(3857) })
    );
    assert_eq!(resolve_georef(None, true, None), Some(Jp2Georef::WorldFile { prj_epsg: None }));
    assert_eq!(resolve_georef(None, false, Some(3857)), None);
}
