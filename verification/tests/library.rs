use std::io::{Cursor, Read, Write};

use numeta::{
    Error, Metadata, Tag,
    metadata::{office, pdf},
    xml::{parse_name, parse_namespace},
};

fn tag(name: &str, value: &str) -> Tag {
    Tag { name: name.to_string(), value: value.to_string() }
}

fn padded(start: &[u8]) -> Vec<u8> {
    let mut v = start.to_vec();
    v.resize(8, 0);
    v
}

#[test]
fn guess_kinds() {
    assert_eq!(Metadata::guess(&padded(b"%PDF-1.7"), None), Some(Metadata::Pdf));
    assert_eq!(Metadata::guess(&padded(b"RIFF"), None), Some(Metadata::Webp));
    assert_eq!(Metadata::guess(&[0x89, 0x50, 0x4E, 0x47, 0x0D, 0x0A, 0x1A, 0x0A], None), Some(Metadata::Png));
    assert_eq!(Metadata::guess(&padded(&[0xFF, 0xD8, 0xFF]), None), Some(Metadata::Jpeg));
    assert_eq!(Metadata::guess(&padded(&[0x50, 0x4B, 0x03, 0x04]), Some("docx")), Some(Metadata::Docx));
    assert_eq!(Metadata::guess(&padded(&[0x50, 0x4B, 0x03, 0x04]), Some("xlsx")), Some(Metadata::Xlsx));
    assert_eq!(Metadata::guess(&padded(&[0x50, 0x4B, 0x03, 0x04]), Some("zip")), None);
    assert_eq!(Metadata::guess(&padded(&[0x50, 0x4B, 0x03, 0x04]), None), None);
}

#[test]
fn guess_unknown_or_short() {
    assert_eq!(Metadata::guess(b"%PDF-1", None), None);
    assert_eq!(Metadata::guess(&padded(b"%PDX"), None), None);
    assert_eq!(Metadata::guess(&padded(b"GIF89a"), None), None);
    assert_eq!(Metadata::guess(&[0x89, 0x50, 0x4E, 0x47, 0x0D, 0x0A, 0x1A, 0x00], None), None);
}

#[test]
fn tag_text() {
    assert_eq!(tag("Author", "Jane").text(), "Author: Jane");
    assert_eq!(tag("", "").text(), ": ");
}

#[test]
fn error_messages() {
    assert_eq!(Error::Encryption.message(), "encrypted file");
    assert_eq!(Error::File.message(), "invalid file");
    assert_eq!(Error::Metadata.message(), "invalid metadata");
}

#[test]
fn names() {
    assert_eq!(parse_name(b"dc:creator"), ("creator".to_string(), "dc".to_string()));
    assert_eq!(parse_name(b"a:b:c"), ("b:c".to_string(), "a".to_string()));
    assert_eq!(parse_name(b"Properties"), ("Properties".to_string(), "".to_string()));
    assert_eq!(parse_name(b":x"), ("x".to_string(), "".to_string()));
    assert_eq!(parse_name(b"\xFF:y"), ("y".to_string(), "\u{FFFD}".to_string()));
}

#[test]
fn namespaces() {
    assert_eq!(parse_namespace(b"xmlns:dc", b"http://purl.org/dc/elements/1.1/"), Some((b"http://purl.org/dc/elements/1.1/".to_vec(), Some(b"dc".to_vec()))));
    assert_eq!(parse_namespace(b"xmlns", b"urn:x"), Some((b"urn:x".to_vec(), None)));
    assert_eq!(parse_namespace(b"xmlns:a:b", b"v"), Some((b"v".to_vec(), Some(b"a".to_vec()))));
    assert_eq!(parse_namespace(b"xmlns:", b"v"), Some((b"v".to_vec(), Some(Vec::new()))));
    assert_eq!(parse_namespace(b"xml:lang", b"en"), None);
    assert_eq!(parse_namespace(b"xmlnsx", b"v"), None);
}

#[test]
fn application_structured_values() {
    let data = br#"<Properties xmlns="http://schemas.openxmlformats.org/officeDocument/2006/extended-properties" xmlns:vt="urn:vt"><TitlesOfParts><vt:vector><vt:lpstr>Part</vt:lpstr></vt:vector></TitlesOfParts><Company>  Acme  </Company></Properties>"#;
    let mut metadata = Vec::new();
    assert!(office::parse_application(data, &mut metadata).is_ok());
    assert_eq!(metadata, vec![tag("TitlesOfParts", "Unknown"), tag("Company", "Acme")]);
}

#[test]
fn core_prefixed_root() {
    let data = br#"<cp:coreProperties xmlns:cp="http://schemas.openxmlformats.org/package/2006/metadata/core-properties" xmlns:dcterms="http://purl.org/dc/terms/"><dcterms:created>2025-01-20</dcterms:created></cp:coreProperties>"#;
    let mut metadata = Vec::new();
    assert!(office::parse_core(data, &mut metadata).is_ok());
    assert_eq!(metadata, vec![tag("created", "2025-01-20")]);
    let wrong = br#"<cp:coreProperties xmlns:cp="urn:other"><dcterms:created>2025</dcterms:created></cp:coreProperties>"#;
    let mut none = Vec::new();
    assert!(office::parse_core(wrong, &mut none).is_ok());
    assert!(none.is_empty());
}

const CONTENT_TYPES: &str = r#"<?xml version="1.0"?><Types xmlns="http://schemas.openxmlformats.org/package/2006/content-types"/>"#;
const RELATIONSHIPS: &str = r#"<Relationships xmlns="http://schemas.openxmlformats.org/package/2006/relationships"><Relationship Id="rId1" Type="http://schemas.openxmlformats.org/officeDocument/2006/relationships/officeDocument" Target="word/document.xml"/><Relationship Id="rId2" Type="http://schemas.openxmlformats.org/officeDocument/2006/relationships/customXml" Target="customXml/item1.xml"/></Relationships>"#;
const APP: &str = r#"<Properties xmlns="http://schemas.openxmlformats.org/officeDocument/2006/extended-properties"><Application>Writer</Application></Properties>"#;
const CORE: &str = r#"<cp:coreProperties xmlns:cp="http://schemas.openxmlformats.org/package/2006/metadata/core-properties" xmlns:dc="http://purl.org/dc/elements/1.1/"><dc:creator>Jane</dc:creator></cp:coreProperties>"#;

fn docx() -> Vec<u8> {
    let mut writer = zip::ZipWriter::new(Cursor::new(Vec::new()));
    let options = zip::write::SimpleFileOptions::default();
    for (name, contents) in [
        ("[Content_Types].xml", CONTENT_TYPES),
        ("_rels/.rels", RELATIONSHIPS),
        ("docProps/app.xml", APP),
        ("docProps/core.xml", CORE),
        ("word/document.xml", "<w:document/>"),
        ("customXml/item1.xml", "<item/>"),
        ("thumbnail.jpeg", "picture"),
    ] {
        writer.start_file(name, options).unwrap();
        writer.write_all(contents.as_bytes()).unwrap();
    }
    writer.finish().unwrap().into_inner()
}

fn entries(archive: &[u8]) -> Vec<(String, String)> {
    let mut archive = zip::ZipArchive::new(Cursor::new(archive)).unwrap();
    let mut out = Vec::new();
    for i in 0..archive.len() {
        let mut file = archive.by_index(i).unwrap();
        let name = file.name().unwrap().to_string();
        let mut contents = String::new();
        file.read_to_string(&mut contents).unwrap();
        out.push((name, contents));
    }
    out
}

#[test]
fn office_properties() {
    assert_eq!(office::get(&docx()).unwrap(), vec![tag("Application", "Writer"), tag("creator", "Jane")]);
}

#[test]
fn office_delete() {
    let cleaned = office::delete(&docx(), "word/").unwrap();
    let names: Vec<String> = entries(&cleaned).into_iter().map(|(name, _)| name).collect();
    assert_eq!(names, vec!["[Content_Types].xml", "_rels/.rels", "docProps/app.xml", "docProps/core.xml", "word/document.xml"]);
    let contents = entries(&cleaned);
    assert!(!contents[1].1.contains("customXml"));
    assert!(contents[1].1.contains("word/document.xml"));
    assert_eq!(contents[2].1, office::EMPTY_APP);
    assert_eq!(contents[3].1, office::EMPTY_CORE);
    assert!(office::get(&cleaned).unwrap().is_empty());
    let spreadsheet = office::delete(&docx(), "xl/").unwrap();
    assert_eq!(entries(&spreadsheet).len(), 4);
}

#[test]
fn office_not_an_archive() {
    assert!(matches!(office::get(b"PK\x03\x04 not really"), Err(Error::File)));
    assert!(matches!(office::delete(b"nothing", "word/"), Err(Error::File)));
}

/// A PDF file with the given objects, its cross-reference table and a
/// trailer.
fn pdf_file(objects: &[&str], trailer: &str) -> Vec<u8> {
    let mut out = b"%PDF-1.4\n".to_vec();
    let mut offsets = Vec::new();
    for (i, object) in objects.iter().enumerate() {
        offsets.push(out.len());
        out.extend_from_slice(format!("{} 0 obj\n{}\nendobj\n", i + 1, object).as_bytes());
    }
    let start = out.len();
    out.extend_from_slice(format!("xref\n0 {}\n0000000000 65535 f \n", objects.len() + 1).as_bytes());
    for offset in offsets {
        out.extend_from_slice(format!("{:010} 00000 n \n", offset).as_bytes());
    }
    out.extend_from_slice(format!("trailer\n{}\nstartxref\n{}\n%%EOF", trailer, start).as_bytes());
    out
}

#[test]
fn pdf_information_values() {
    let file = pdf_file(
        &[
            "<</Type/Catalog/Pages 2 0 R>>",
            "<</Type/Pages/Count 0/Kids[]>>",
            "<</Title(Report)/Pages 3/Draft true/Kind/Memo/Scale 0.5/Extra[1 2]>>",
        ],
        "<</Root 1 0 R/Size 4/Info 3 0 R/DocChecksum/ABC123>>",
    );
    let expected = vec![
        tag("DocChecksum", "ABC123"),
        tag("Title", "Report"),
        tag("Pages", "3"),
        tag("Draft", "true"),
        tag("Kind", "Memo"),
        tag("Scale", "0.5"),
        tag("Extra", ""),
    ];
    assert_eq!(pdf::get(&file).unwrap(), expected);
    let cleaned = pdf::delete(&file).unwrap();
    assert!(pdf::get(&cleaned).unwrap().is_empty());
}

#[test]
fn pdf_not_a_document() {
    assert!(matches!(pdf::get(b"%PDF-1.4 nothing here"), Err(Error::File)));
    assert!(matches!(pdf::delete(b"%PDF-1.4 nothing here"), Err(Error::File)));
}

#[test]
fn pdf_encrypted() {
    let key = "00000000000000000000000000000000";
    let file = pdf_file(
        &[
            "<</Type/Catalog/Pages 2 0 R>>",
            "<</Type/Pages/Count 0/Kids[]>>",
            &format!("<</Filter/Standard/V 1/R 2/Length 40/P -4/O<{key}{key}>/U<{key}{key}>>>"),
        ],
        "<</Root 1 0 R/Size 4/Encrypt 3 0 R/ID[<00112233445566778899AABBCCDDEEFF><00112233445566778899AABBCCDDEEFF>]>>",
    );
    assert!(matches!(pdf::get(&file), Err(Error::Encryption)));
    assert!(matches!(pdf::delete(&file), Err(Error::Encryption)));
}

fn ratio(n: i64, d: i64) -> String {
    (n as f64 / d as f64).to_string()
}

const WEBP: &[u8] = &[
    b'R', b'I', b'F', b'F', 0x2C, 0x00, 0x00, 0x00, b'W', b'E', b'B', b'P', b'V', b'P', b'8', b'L',
    0x03, 0x00, 0x00, 0x00, 0x2F, 0x00, 0x00, 0x00, b'D', b'A', b'T', b'E', 0x05, 0x00, 0x00, 0x00,
    b'2', b'0', b'2', b'5', b'!', 0x00, b'I', b'C', b'C', b'P', 0x02, 0x00, 0x00, 0x00, 0x01, 0x02,
];

#[test]
fn webp_delete_twice() {
    let once = numeta::metadata::webp::delete(WEBP).unwrap();
    let expected: Vec<u8> = vec![
        b'R', b'I', b'F', b'F', 0x1A, 0x00, 0x00, 0x00, b'W', b'E', b'B', b'P', b'V', b'P', b'8', b'L',
        0x03, 0x00, 0x00, 0x00, 0x2F, 0x00, 0x00, 0x00, b'I', b'C', b'C', b'P', 0x02, 0x00, 0x00, 0x00,
        0x01, 0x02,
    ];
    assert_eq!(once, expected);
    assert_eq!(numeta::metadata::webp::delete(&once).unwrap(), once);
    assert!(numeta::metadata::webp::get(&once, &ratio).unwrap().is_empty());
    assert_eq!(Metadata::guess(&once, None), Some(Metadata::Webp));
}

#[test]
fn png_delete_keeps_kind() {
    let mut file = vec![0x89, 0x50, 0x4E, 0x47, 0x0D, 0x0A, 0x1A, 0x0A];
    file.extend_from_slice(&[0, 0, 0, 3, b't', b'E', b'X', b't', b'a', 0, b'b', 1, 2, 3, 4]);
    let once = numeta::metadata::png::delete(&file).unwrap();
    assert_eq!(once, file[..8].to_vec());
    assert_eq!(Metadata::guess(&once, Some("png")), Some(Metadata::Png));
}

#[test]
fn metadata_dispatch() {
    assert_eq!(Metadata::Docx.get(&docx(), &ratio).unwrap(), vec![tag("Application", "Writer"), tag("creator", "Jane")]);
    let cleaned = Metadata::Xlsx.delete(&docx()).unwrap();
    assert!(Metadata::Xlsx.get(&cleaned, &ratio).unwrap().is_empty());
}

#[test]
fn metadata_total_dispatch() {
    let tags = Metadata::Docx.read(&docx(), &ratio).unwrap().unwrap();
    assert_eq!(tags, vec![tag("Application", "Writer"), tag("creator", "Jane")]);
    let overflowing = [0xFF, 0xD8, 0xFF, 0xE1, 0x00, 0x01, 0xFF, 0xD9];
    assert!(Metadata::Jpeg.read(&overflowing, &ratio).is_none());
    assert!(Metadata::Jpeg.remove(&overflowing).is_none());
    let cleaned = Metadata::Docx.remove(&docx()).unwrap().unwrap();
    assert!(Metadata::Docx.get(&cleaned, &ratio).unwrap().is_empty());
}

#[test]
fn jpeg_delete_keeps_kind() {
    let file = [
        0xFF, 0xD8, 0xFF, 0xE1, 0x00, 0x04, 0x00, 0x00, 0xFF, 0xDB, 0x00, 0x04, 0x00, 0x00, 0xFF, 0xD9,
    ];
    assert_eq!(Metadata::guess(&file, None), Some(Metadata::Jpeg));
    let once = Metadata::Jpeg.delete(&file).unwrap();
    assert_eq!(once, vec![0xFF, 0xD8, 0xFF, 0xDB, 0x00, 0x04, 0x00, 0x00, 0xFF, 0xD9]);
    assert_eq!(Metadata::guess(&once, Some("jpg")), Some(Metadata::Jpeg));
    let short = [0xFF, 0xD8, 0xFF, 0xE1, 0x00, 0x02, 0xFF, 0xD9];
    let left = Metadata::Jpeg.delete(&short).unwrap();
    assert_eq!(left, vec![0xFF, 0xD8, 0xFF, 0xD9]);
    assert_eq!(Metadata::guess(&left, None), None);
}

#[test]
fn get_after_delete_finds_nothing() {
    let mut png = vec![0x89, 0x50, 0x4E, 0x47, 0x0D, 0x0A, 0x1A, 0x0A];
    png.extend_from_slice(&[0, 0, 0, 3, b't', b'E', b'X', b't', b'a', 0, b'b', 1, 2, 3, 4]);
    assert_eq!(Metadata::Png.get(&png, &ratio).unwrap(), vec![tag("a", "b")]);
    let jpeg = [
        0xFF, 0xD8, 0xFF, 0xE0, 0x00, 0x04, 0x00, 0x00, 0xFF, 0xDB, 0x00, 0x04, 0x00, 0x00, 0xFF, 0xD9,
    ];
    for (kind, file) in [(Metadata::Png, png.as_slice()), (Metadata::Webp, WEBP), (Metadata::Jpeg, &jpeg[..])] {
        let cleaned = kind.delete(file).unwrap();
        assert!(kind.get(&cleaned, &ratio).unwrap().is_empty());
    }
}
