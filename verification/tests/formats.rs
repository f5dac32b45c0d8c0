use std::io::Write;

use numeta::{
    Error, Tag,
    metadata::{exif, iptc, jpeg, mp3, png},
};

fn ratio(n: i64, d: i64) -> String {
    (n as f64 / d as f64).to_string()
}

fn tag(name: &str, value: &str) -> Tag {
    Tag { name: name.to_string(), value: value.to_string() }
}

const SIGNATURE: [u8; 8] = [0x89, 0x50, 0x4E, 0x47, 0x0D, 0x0A, 0x1A, 0x0A];

fn chunk(name: &[u8], data: &[u8]) -> Vec<u8> {
    let mut out = (data.len() as u32).to_be_bytes().to_vec();
    out.extend_from_slice(name);
    out.extend_from_slice(data);
    out.extend_from_slice(&[0xAA, 0xBB, 0xCC, 0xDD]);
    out
}

fn png_file(chunks: &[Vec<u8>]) -> Vec<u8> {
    let mut out = SIGNATURE.to_vec();
    for c in chunks {
        out.extend_from_slice(c);
    }
    out
}

fn header() -> Vec<u8> {
    chunk(b"IHDR", &[0, 0, 0, 1, 0, 0, 0, 1, 8, 2, 0, 0, 0])
}

fn image_data() -> Vec<u8> {
    chunk(b"IDAT", &[0x78, 0x9C, 0x63, 0x00, 0x00])
}

fn end() -> Vec<u8> {
    chunk(b"IEND", &[])
}

fn zlib(data: &[u8]) -> Vec<u8> {
    let mut encoder = flate2::write::ZlibEncoder::new(Vec::new(), flate2::Compression::default());
    Write::write_all(&mut encoder, data).unwrap();
    encoder.finish().unwrap()
}

/// A big-endian TIFF block with a make (ASCII), an orientation (SHORT) and
/// a horizontal resolution (RATIONAL).
fn tiff() -> Vec<u8> {
    let mut t = vec![0x4D, 0x4D, 0x00, 0x2A, 0x00, 0x00, 0x00, 0x08];
    t.extend_from_slice(&[0x00, 0x03]);
    t.extend_from_slice(&[0x01, 0x0F, 0x00, 0x02, 0x00, 0x00, 0x00, 0x06, 0x00, 0x00, 0x00, 0x32]);
    t.extend_from_slice(&[0x01, 0x12, 0x00, 0x03, 0x00, 0x00, 0x00, 0x01, 0x00, 0x06, 0x00, 0x00]);
    t.extend_from_slice(&[0x01, 0x1A, 0x00, 0x05, 0x00, 0x00, 0x00, 0x01, 0x00, 0x00, 0x00, 0x38]);
    t.extend_from_slice(&[0x00, 0x00, 0x00, 0x00]);
    assert_eq!(t.len(), 0x32);
    t.extend_from_slice(b"Canon\0");
    t.extend_from_slice(&[0x00, 0x00, 0x00, 0x48, 0x00, 0x00, 0x00, 0x01]);
    t
}

fn tiff_tags() -> Vec<Tag> {
    vec![tag("Make", "Canon"), tag("Orientation", "6"), tag("XResolution", "72")]
}

#[test]
fn exif_entries() {
    let mut metadata = Vec::new();
    assert!(exif::get(&tiff(), &mut metadata, &ratio).is_ok());
    assert_eq!(metadata, tiff_tags());
}

#[test]
fn exif_little_endian() {
    let t = vec![
        0x49, 0x49, 0x2A, 0x00, 0x08, 0x00, 0x00, 0x00, 0x01, 0x00, 0x12, 0x01, 0x03, 0x00, 0x02, 0x00,
        0x00, 0x00, 0x03, 0x00, 0x03, 0x00, 0x00, 0x00, 0x00, 0x00,
    ];
    let mut metadata = Vec::new();
    assert!(exif::get(&t, &mut metadata, &ratio).is_ok());
    assert_eq!(metadata, vec![tag("Orientation", "3 3")]);
}

#[test]
fn exif_bad_header() {
    let mut metadata = Vec::new();
    assert!(matches!(exif::get(b"XX\0*\0\0\0\x08", &mut metadata, &ratio), Err(Error::Metadata)));
    assert!(matches!(exif::get(b"MM", &mut metadata, &ratio), Err(Error::Metadata)));
    assert!(metadata.is_empty());
}

fn photoshop() -> Vec<u8> {
    let mut d = b"8BIM".to_vec();
    d.extend_from_slice(&[0x04, 0x04, 0x00, 0x00, 0x00, 0x00, 0x00, 0x0A]);
    d.extend_from_slice(&[0x1C, 0x02, 0x05, 0x00, 0x05]);
    d.extend_from_slice(b"Hello");
    d
}

#[test]
fn iptc_dataset() {
    let mut metadata = Vec::new();
    assert!(iptc::get(&photoshop(), &mut metadata).is_ok());
    assert_eq!(metadata, vec![tag("ObjectName", "Hello")]);
}

#[test]
fn iptc_other_resource() {
    let mut metadata = Vec::new();
    assert!(iptc::get(b"8BIM\x04\x05\0\0\0\0\0\0", &mut metadata).is_ok());
    assert!(metadata.is_empty());
    assert!(matches!(iptc::get(b"8BIM", &mut metadata), Err(Error::Metadata)));
}

#[test]
fn png_text() {
    let file = png_file(&[header(), chunk(b"tEXt", b"Author\0Jane"), image_data(), end()]);
    assert_eq!(png::get(&file, &ratio).unwrap(), vec![tag("Author", "Jane")]);
}

#[test]
fn png_text_windows_1252() {
    let file = png_file(&[header(), chunk(b"tEXt", b"Title\0Caf\xE9 \x80"), end()]);
    assert_eq!(png::get(&file, &ratio).unwrap(), vec![tag("Title", "Caf\u{e9} \u{20ac}")]);
}

#[test]
fn png_international_text() {
    let file = png_file(&[header(), chunk(b"iTXt", b"Description\0\0\0en\0\0Sunset"), end()]);
    assert_eq!(png::get(&file, &ratio).unwrap(), vec![tag("Description", "Sunset")]);
}

#[test]
fn png_compressed_international_text() {
    let mut data = b"Description\0\x01\x00\0\0".to_vec();
    data.extend_from_slice(&zlib(b"Dawn"));
    let file = png_file(&[header(), chunk(b"iTXt", &data), end()]);
    assert_eq!(png::get(&file, &ratio).unwrap(), vec![tag("Description", "Dawn")]);
}

#[test]
fn png_compressed_text() {
    let mut data = b"Comment\0\0".to_vec();
    data.extend_from_slice(&zlib(b"hello"));
    let file = png_file(&[header(), image_data(), chunk(b"zTXt", &data), end()]);
    assert_eq!(png::get(&file, &ratio).unwrap(), vec![tag("Comment", "hello")]);
}

#[test]
fn png_xmp() {
    let mut data = b"XML:com.adobe.xmp\0\0\0\0\0".to_vec();
    data.extend_from_slice(br#"<x:xmpmeta xmlns:x="adobe:ns:meta/"><dc:format>image/png</dc:format></x:xmpmeta>"#);
    let file = png_file(&[header(), chunk(b"iTXt", &data), end()]);
    assert_eq!(png::get(&file, &ratio).unwrap(), vec![tag("format", "image/png")]);
}

#[test]
fn png_exif() {
    let file = png_file(&[header(), chunk(b"eXIf", &tiff()), end()]);
    assert_eq!(png::get(&file, &ratio).unwrap(), tiff_tags());
}

#[test]
fn png_delete_keeps_image() {
    let file = png_file(&[header(), chunk(b"tEXt", b"Author\0Jane"), image_data(), chunk(b"eXIf", &tiff()), end()]);
    let expected = png_file(&[header(), image_data(), end()]);
    assert_eq!(png::delete(&file).unwrap(), expected);
}

#[test]
fn png_delete_twice() {
    let file = png_file(&[header(), chunk(b"tEXt", b"Author\0Jane"), image_data(), end()]);
    let once = png::delete(&file).unwrap();
    assert_eq!(png::delete(&once).unwrap(), once);
    assert!(png::get(&once, &ratio).unwrap().is_empty());
}

#[test]
fn png_errors() {
    assert!(matches!(png::delete(&[0x89, 0x50, 0x4E]), Err(Error::File)));
    let mut cut = SIGNATURE.to_vec();
    cut.extend_from_slice(&[0x00, 0x00, 0x00, 0x05, b't', b'E']);
    assert!(matches!(png::get(&cut, &ratio), Err(Error::File)));
    let mut short = SIGNATURE.to_vec();
    short.extend_from_slice(&chunk(b"IDAT", &[1, 2, 3, 4, 5, 6])[..10]);
    assert!(matches!(png::delete(&short), Err(Error::File)));
    let broken = png_file(&[header(), chunk(b"eXIf", b"garbage!"), end()]);
    assert!(matches!(png::get(&broken, &ratio), Err(Error::Metadata)));
}

#[test]
fn png_empty_after_signature() {
    assert!(png::get(&SIGNATURE, &ratio).unwrap().is_empty());
    assert!(png::get(&SIGNATURE[..3], &ratio).unwrap().is_empty());
}

fn jpeg_file() -> Vec<u8> {
    let mut f = vec![0xFF, 0xD8];
    f.extend_from_slice(&[0xFF, 0xE0, 0x00, 0x13]);
    f.extend_from_slice(b"JFIF\0");
    f.extend_from_slice(&[0x01, 0x01, 0x00, 0x00, 0x01, 0x00, 0x01, 0x01, 0x01, 0x10, 0x20, 0x30]);
    let iptc_block = photoshop();
    let app13 = 2 + 14 + iptc_block.len();
    f.extend_from_slice(&[0xFF, 0xED, 0x00, app13 as u8]);
    f.extend_from_slice(b"Photoshop 3.0\0");
    f.extend_from_slice(&iptc_block);
    let t = tiff();
    let app1 = 2 + 6 + t.len();
    f.extend_from_slice(&[0xFF, 0xE1, 0x00, app1 as u8]);
    f.extend_from_slice(b"Exif\0\0");
    f.extend_from_slice(&t);
    f.extend_from_slice(&jpeg_image());
    f
}

fn jpeg_image() -> Vec<u8> {
    vec![0xFF, 0xDB, 0x00, 0x04, 0x00, 0x00, 0xFF, 0xDA, 0x00, 0x02, 0x11, 0x22, 0xFF, 0x00, 0x33, 0xFF, 0xD9]
}

#[test]
fn jpeg_metadata() {
    let mut expected = vec![tag("Thumbnail", "<data>"), tag("ObjectName", "Hello")];
    expected.extend(tiff_tags());
    assert_eq!(jpeg::get(&jpeg_file(), &ratio).unwrap(), expected);
}

#[test]
fn jpeg_delete() {
    let mut expected = vec![0xFF, 0xD8];
    expected.extend_from_slice(&jpeg_image());
    let once = jpeg::delete(&jpeg_file()).unwrap();
    assert_eq!(once, expected);
    assert_eq!(jpeg::delete(&once).unwrap(), once);
    assert!(jpeg::get(&once, &ratio).unwrap().is_empty());
}

#[test]
fn jpeg_errors() {
    assert!(matches!(jpeg::get(&[0xFF, 0xD8, 0x00, 0x01], &ratio), Err(Error::File)));
    assert!(matches!(jpeg::get(&[0xFF], &ratio), Err(Error::File)));
    assert!(matches!(jpeg::delete(&[0xFF, 0xD8, 0xFF, 0xDA, 0x00, 0x02, 0x11]), Err(Error::File)));
    assert!(jpeg::get(&[], &ratio).unwrap().is_empty());
}

#[test]
fn jpeg_scan_cut_short_after_deletion() {
    let file = [0xFF, 0xD8, 0xFF, 0xDA, 0x00, 0x02, 0x11, 0xFF, 0xE1, 0x00, 0x02];
    let once = jpeg::delete(&file).unwrap();
    assert_eq!(once, vec![0xFF, 0xD8, 0xFF, 0xDA, 0x00, 0x02, 0x11]);
    assert!(matches!(jpeg::delete(&once), Err(Error::File)));
}

fn text_field(text: &str, size: usize) -> Vec<u8> {
    let mut v = text.as_bytes().to_vec();
    v.resize(size, 0);
    v
}

fn mp3_file(genre: u8) -> Vec<u8> {
    let mut f = b"ID3\x03\x00\x00\x00\x00\x00\x0A".to_vec();
    f.extend_from_slice(&[0x55; 10]);
    f.extend_from_slice(&mp3_frames());
    f.extend_from_slice(b"TAG");
    f.extend_from_slice(&text_field("Song", 30));
    f.extend_from_slice(&text_field("Band", 30));
    f.extend_from_slice(&text_field("", 30));
    f.extend_from_slice(b"2024");
    f.extend_from_slice(&text_field("", 30));
    f.push(genre);
    f
}

fn mp3_frames() -> Vec<u8> {
    vec![0xFF, 0xFF, 0x10, 0x00, 1, 2, 3, 4, 0xFF, 0xFF, 0x10, 0x00, 5, 6, 7, 8]
}

#[test]
fn mp3_tags() {
    let expected = vec![tag("Title", "Song"), tag("Artist", "Band"), tag("Year", "2024"), tag("Genre", "Rock")];
    assert_eq!(mp3::get(&mp3_file(17)).unwrap(), expected);
    let other = mp3::get(&mp3_file(200)).unwrap();
    assert_eq!(other.last(), Some(&tag("Genre", "UNKNOWN")));
}

#[test]
fn mp3_delete() {
    let once = mp3::delete(&mp3_file(17)).unwrap();
    assert_eq!(once, mp3_frames());
    assert_eq!(mp3::delete(&once).unwrap(), once);
    assert!(mp3::get(&once).unwrap().is_empty());
}

#[test]
fn mp3_errors() {
    assert!(matches!(mp3::get(b"XYZW"), Err(Error::File)));
    assert!(matches!(mp3::get(&[0xFF, 0xE0, 0x00, 0x00]), Err(Error::File)));
    assert!(matches!(mp3::get(b"TAG"), Err(Error::File)));
    assert!(matches!(mp3::delete(&[0xFF, 0xFF]), Err(Error::File)));
}

#[test]
fn png_overflowing_chunk_size() {
    let mut big = 0xFFFF_FFFCu32.to_be_bytes().to_vec();
    big.extend_from_slice(b"tIME");
    let file = png_file(&[header(), big]);
    assert!(png::read(&file, &ratio).is_none());
    assert!(png::remove(&file).is_none());
    let fine = png_file(&[header(), image_data(), end()]);
    assert_eq!(png::read(&fine, &ratio).unwrap().unwrap(), Vec::<Tag>::new());
    assert_eq!(png::remove(&fine).unwrap().unwrap(), fine);
    assert!(matches!(png::read(&SIGNATURE[..3], &ratio), Some(Ok(_))));
    assert!(matches!(png::remove(&SIGNATURE[..3]), Some(Err(Error::File))));
}

#[test]
fn jpeg_segment_length_below_two() {
    let file = [0xFF, 0xD8, 0xFF, 0xE1, 0x00, 0x01, 0xFF, 0xD9];
    assert!(jpeg::read(&file, &ratio).is_none());
    assert!(jpeg::remove(&file).is_none());
    let kept = jpeg::remove(&jpeg_file()).unwrap().unwrap();
    assert_eq!(kept, jpeg::delete(&jpeg_file()).unwrap());
    assert_eq!(jpeg::read(&jpeg_file(), &ratio).unwrap().unwrap(), jpeg::get(&jpeg_file(), &ratio).unwrap());
}

#[test]
fn jpeg_thumbnail_too_large() {
    let mut f = vec![0xFF, 0xD8, 0xFF, 0xE0, 0x00, 0x13];
    f.extend_from_slice(b"JFIF\0");
    f.extend_from_slice(&[0x01, 0x01, 0x00, 0x00, 0x01, 0x00, 0x01, 0x10, 0x10, 0x00]);
    assert!(jpeg::read(&f, &ratio).is_none());
}
