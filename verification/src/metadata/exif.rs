use crate::{
    Error, Tag, pushed, ratio_text, renders, render_ratio, push_pushed, lemma_pushed_none,
    lemma_pushed_trans,
    text::{
        decimal, decimal_text, empty, find_name, lookup, lossy, owned, parse_u32, repeat_join,
        repeat_text, signed_decimal, signed_text, text_to_u32, utf8_lossy, utf8_text,
    },
    utilities::bytes::{be16, be32, read_u16, read_u32, signed32, to_signed},
};
use vstd::prelude::*;

verus! {

/// A 16-bit number at `i`, in big-endian order when `big` holds.
pub open spec fn u16_at(d: Seq<u8>, i: int, big: bool) -> int {
    if big { be16(d[i], d[i + 1]) } else { be16(d[i + 1], d[i]) }
}

/// A 32-bit number at `i`, in big-endian order when `big` holds.
pub open spec fn u32_at(d: Seq<u8>, i: int, big: bool) -> int {
    if big {
        be32(d[i], d[i + 1], d[i + 2], d[i + 3])
    } else {
        be32(d[i + 3], d[i + 2], d[i + 1], d[i])
    }
}

/// How many bytes one value of an entry type takes.
pub open spec fn type_size(t: int) -> int {
    if t == 1 || t == 2 || t == 129 || t == 7 {
        1
    } else if t == 3 {
        2
    } else if t == 4 || t == 9 {
        4
    } else if t == 5 || t == 10 {
        8
    } else {
        0
    }
}

/// The text of an entry's value: `v` holds `count` values of type `t`.
/// `None` where the value is too short for what is read from it.
pub open spec fn render<F: Fn(i64, i64) -> String>(v: Seq<u8>, t: int, count: int, big: bool, f: F) -> Option<Seq<char>> {
    if t == 1 {
        Some(repeat_join(decimal(v[0] as nat), count as nat))
    } else if t == 2 || t == 129 {
        if count == 0 { None } else { Some(utf8_text(v.take(count - 1))) }
    } else if t == 3 {
        Some(repeat_join(decimal(u16_at(v, 0, big) as nat), count as nat))
    } else if t == 4 {
        Some(repeat_join(decimal(u32_at(v, 0, big) as nat), count as nat))
    } else if t == 5 {
        if count == 0 { None } else { Some(ratio_text(f, u32_at(v, 0, big), u32_at(v, 4, big))) }
    } else if t == 7 {
        if v.len() < 4 { None } else { Some(utf8_text(v.take(4))) }
    } else if t == 9 {
        Some(repeat_join(signed_decimal(signed32(u32_at(v, 0, big))), count as nat))
    } else if t == 10 {
        if count == 0 {
            None
        } else {
            Some(ratio_text(f, signed32(u32_at(v, 0, big)), signed32(u32_at(v, 4, big))))
        }
    } else {
        Some(Seq::empty())
    }
}

/// An ASCII entry (type 2) holding `count` bytes is reported as its first
/// `count - 1` bytes (the last is the terminating zero) decoded as UTF-8:
/// where they are well-formed UTF-8, the text encodes back to exactly those
/// bytes.
pub proof fn lemma_ascii_utf8<F: Fn(i64, i64) -> String>(v: Seq<u8>, count: int, big: bool, f: F)
    requires
        1 <= count <= v.len(),
        vstd::utf8::valid_utf8(v.take(count - 1)),
    ensures
        render(v, 2, count, big, f) matches Some(t) && vstd::utf8::encode_utf8(t) == v.take(count - 1),
{
    vstd::utf8::decode_utf8_encode_utf8(v.take(count - 1));
}

/// The code and the value text of the 12-byte entry at `c`; `None` where
/// reading it goes out of bounds.
pub open spec fn entry<F: Fn(i64, i64) -> String>(d: Seq<u8>, c: int, big: bool, f: F) -> Option<Result<(int, Seq<char>), Error>> {
    if c + 12 > d.len() {
        Some(Err(Error::Metadata))
    } else {
        let name = u16_at(d, c, big);
        let t = u16_at(d, c + 2, big);
        let count = u32_at(d, c + 4, big);
        let size = count * type_size(t);
        let start = if size > 4 { u32_at(d, c + 8, big) } else { c + 8 };
        if size > 4 && start + size > d.len() {
            Some(Err(Error::Metadata))
        } else {
            match render(d.subrange(start, start + size), t, count, big, f) {
                None => None,
                Some(v) => Some(Ok((name, v))),
            }
        }
    }
}

/// The tag names of the primary image directory.
pub const PRIMARY_NAMES: [(u16, &'static str); 30] = [
    (256, "ImageWidth"),
    (257, "ImageLength"),
    (258, "BitsPerSample"),
    (259, "Compression"),
    (262, "PhotometricInterpretation"),
    (270, "ImageDescription"),
    (271, "Make"),
    (272, "Model"),
    (273, "StripOffsets"),
    (274, "Orientation"),
    (277, "SamplesPerPixel"),
    (278, "RowsPerStrip"),
    (279, "StripByteCounts"),
    (282, "XResolution"),
    (283, "YResolution"),
    (284, "PlanarConfiguration"),
    (296, "ResolutionUnit"),
    (301, "TransferFunction"),
    (305, "Software"),
    (306, "DateTime"),
    (315, "Artist"),
    (318, "WhitePoint"),
    (319, "PrimaryChromaticities"),
    (513, "JPEGInterchangeFormat"),
    (514, "JPEGInterchangeFormatLength"),
    (529, "YCbCrCoefficients"),
    (530, "YCbCrSubSampling"),
    (531, "YCbCrPositioning"),
    (532, "ReferenceBlackWhite"),
    (33432, "Copyright"),
];


/// The tag names of the EXIF directory.
pub const EXIF_NAMES: [(u16, &'static str); 88] = [
    (33434, "ExposureTime"),
    (33437, "FNumber"),
    (34850, "ExposureProgram"),
    (34852, "SpectralSensitivity"),
    (34855, "PhotographicSensitivity"),
    (34856, "OECF"),
    (34864, "SensitivityType"),
    (34865, "StandardOutputSensitivity"),
    (34866, "RecommendedExposureIndex"),
    (34867, "ISOSpeed"),
    (34868, "ISOSpeedLatitudeyyy"),
    (34869, "ISOSpeedLatitudezzz"),
    (36864, "ExifVersion"),
    (36867, "DateTimeOriginal"),
    (36868, "DateTimeDigitized"),
    (36880, "OffsetTime"),
    (36881, "OffsetTimeOriginal"),
    (36882, "OffsetTimeDigitized"),
    (37121, "ComponentsConfiguration"),
    (37122, "CompressedBitsPerPixel"),
    (37377, "ShutterSpeedValue"),
    (37378, "ApertureValue"),
    (37379, "BrightnessValue"),
    (37380, "ExposureBiasValue"),
    (37381, "MaxApertureValue"),
    (37382, "SubjectDistance"),
    (37383, "MeteringMode"),
    (37384, "LightSource"),
    (37385, "Flash"),
    (37386, "FocalLength"),
    (37396, "SubjectArea"),
    (37500, "MakerNote"),
    (37510, "UserComment"),
    (37520, "SubSecTime"),
    (37521, "SubSecTimeOriginal"),
    (37522, "SubSecTimeDigitized"),
    (37888, "Temperature"),
    (37889, "Humidity"),
    (37890, "Pressure"),
    (37891, "WaterDepth"),
    (37892, "Acceleration"),
    (37893, "CameraElevationAngle"),
    (40960, "FlashpixVersion"),
    (40961, "ColorSpace"),
    (40962, "PixelXDimension"),
    (40963, "PixelYDimension"),
    (40964, "RelatedSoundFile"),
    (41483, "FlashEnergy"),
    (41484, "SpatialFrequencyResponse"),
    (41486, "FocalPlaneXResolution"),
    (41487, "FocalPlaneYResolution"),
    (41488, "FocalPlaneResolutionUnit"),
    (41492, "SubjectLocation"),
    (41493, "ExposureIndex"),
    (41495, "SensingMethod"),
    (41728, "FileSource"),
    (41729, "SceneType"),
    (41730, "CFAPattern"),
    (41985, "CustomRendered"),
    (41986, "ExposureMode"),
    (41987, "WhiteBalance"),
    (41988, "DigitalZoomRatio"),
    (41989, "FocalLengthIn35mmFilm"),
    (41990, "SceneCaptureType"),
    (41991, "GainControl"),
    (41992, "Contrast"),
    (41993, "Saturation"),
    (41994, "Sharpness"),
    (41995, "DeviceSettingDescription"),
    (41996, "SubjectDistanceRange"),
    (42016, "ImageUniqueID"),
    (42032, "CameraOwnerName"),
    (42033, "BodySerialNumber"),
    (42034, "LensSpecification"),
    (42035, "LensMake"),
    (42036, "LensModel"),
    (42037, "LensSerialNumber"),
    (42038, "ImageTitle"),
    (42039, "Photographer"),
    (42040, "ImageEditor"),
    (42041, "CameraFirmware"),
    (42042, "RAWDevelopingSoftware"),
    (42043, "ImageEditingSoftware"),
    (42044, "MetadataEditingSoftware"),
    (42080, "CompositeImage"),
    (42081, "SourceImageNumberOfCompositeImage"),
    (42082, "SourceExposureTimesOfCompositeImage"),
    (42240, "Gamma"),
];


/// The tag names of the GPS directory.
pub const GPS_NAMES: [(u16, &'static str); 32] = [
    (0, "GPSVersionID"),
    (1, "GPSLatitudeRef"),
    (2, "GPSLatitude"),
    (3, "GPSLongitudeRef"),
    (4, "GPSLongitude"),
    (5, "GPSAltitudeRef"),
    (6, "GPSAltitude"),
    (7, "GPSTimeStamp"),
    (8, "GPSSatellites"),
    (9, "GPSStatus"),
    (10, "GPSMeasureMode"),
    (11, "GPSDOP"),
    (12, "GPSSpeedRef"),
    (13, "GPSSpeed"),
    (14, "GPSTrackRef"),
    (15, "GPSTrack"),
    (16, "GPSImgDirectionRef"),
    (17, "GPSImgDirection"),
    (18, "GPSMapDatum"),
    (19, "GPSDestLatitudeRef"),
    (20, "GPSDestLatitude"),
    (21, "GPSDestLongitudeRef"),
    (22, "GPSDestLongitude"),
    (23, "GPSDestBearingRef"),
    (24, "GPSDestBearing"),
    (25, "GPSDestDistanceRef"),
    (26, "GPSDestDistance"),
    (27, "GPSProcessingMethod"),
    (28, "GPSAreaInformation"),
    (29, "GPSDateStamp"),
    (30, "GPSDifferential"),
    (31, "GPSHPositioningError"),
];

/// The name of tag `code` in directory table 1 (primary), 2 (EXIF) or 3 (GPS).
pub open spec fn table_name(table: int, code: int) -> Seq<char> {
    if table == 1 {
        lookup(PRIMARY_NAMES@, code)
    } else if table == 2 {
        lookup(EXIF_NAMES@, code)
    } else {
        lookup(GPS_NAMES@, code)
    }
}

/// Tags appended and the outcome, with `done` in front of the tags.
pub open spec fn prepend<T>(done: Seq<(Seq<char>, Seq<char>)>, rest: Option<(Seq<(Seq<char>, Seq<char>)>, T)>) -> Option<(Seq<(Seq<char>, Seq<char>)>, T)> {
    match rest {
        None => None,
        Some((tags, r)) => Some((done + tags, r)),
    }
}

/// The code of the entry that points at the EXIF directory.
pub const EXIF_POINTER: u16 = 34665;

/// The code of the entry that points at the GPS directory.
pub const GPS_POINTER: u16 = 34853;

/// Reading the directory at `cursor` with names from `table`: the tags it
/// appends and the position of the next directory, or the error. `None`
/// where the reading fails out of bounds or nests without end (`fuel`
/// bounds the nesting).
pub open spec fn directory<F: Fn(i64, i64) -> String>(d: Seq<u8>, cursor: int, table: int, big: bool, f: F, fuel: nat) -> Option<(Seq<(Seq<char>, Seq<char>)>, Result<int, Error>)>
    decreases fuel, 0x20000int,
{
    if fuel == 0 {
        None
    } else if cursor + 2 > d.len() {
        Some((Seq::empty(), Err(Error::Metadata)))
    } else {
        let count = u16_at(d, cursor, big);
        match entries(d, cursor, count, 0, table, big, f, fuel) {
            None => None,
            Some((tags, Err(e))) => Some((tags, Err(e))),
            Some((tags, Ok(()))) => {
                let next = cursor + 2 + 12 * count;
                if next + 4 > d.len() {
                    None
                } else {
                    Some((tags, Ok(u32_at(d, next, big))))
                }
            },
        }
    }
}

/// Reading the entries `i..count` of the directory at `cursor`: the tags
/// they append (the EXIF and GPS pointers through their directories) and
/// the outcome.
pub open spec fn entries<F: Fn(i64, i64) -> String>(d: Seq<u8>, cursor: int, count: int, i: int, table: int, big: bool, f: F, fuel: nat) -> Option<(Seq<(Seq<char>, Seq<char>)>, Result<(), Error>)>
    decreases fuel, count - i,
{
    if fuel == 0 || count >= 0x20000 {
        None
    } else if i >= count {
        Some((Seq::empty(), Ok(())))
    } else {
        match entry(d, cursor + 2 + 12 * i, big, f) {
            None => None,
            Some(Err(e)) => Some((Seq::empty(), Err(e))),
            Some(Ok((name, value))) => {
                if name == EXIF_POINTER || name == GPS_POINTER {
                    match parse_u32(value) {
                        None => Some((Seq::empty(), Err(Error::Metadata))),
                        Some(sub) => {
                            let inner = if name == EXIF_POINTER { 2int } else { 3int };
                            match directory(d, sub as int, inner, big, f, (fuel - 1) as nat) {
                                None => None,
                                Some((tags, Err(e))) => Some((tags, Err(e))),
                                Some((tags, Ok(_))) => prepend(
                                    tags,
                                    entries(d, cursor, count, i + 1, table, big, f, fuel),
                                ),
                            }
                        },
                    }
                } else {
                    prepend(
                        seq![(table_name(table, name), value)],
                        entries(d, cursor, count, i + 1, table, big, f, fuel),
                    )
                }
            },
        }
    }
}

#[verifier::opaque]
/// Following the chain of primary directories from `pos`, at most `2 - k`
/// more of them.
pub open spec fn walk<F: Fn(i64, i64) -> String>(d: Seq<u8>, pos: int, k: int, big: bool, f: F) -> Option<(Seq<(Seq<char>, Seq<char>)>, Result<(), Error>)>
    decreases 2 - k,
{
    if k >= 2 || pos == 0 {
        Some((Seq::empty(), Ok(())))
    } else if pos < 8 || pos > d.len() {
        Some((Seq::empty(), Err(Error::Metadata)))
    } else {
        match directory(d, pos, 1, big, f, (d.len() + 2) as nat) {
            None => None,
            Some((tags, Err(e))) => Some((tags, Err(e))),
            Some((tags, Ok(next))) => prepend(tags, walk(d, next, k + 1, big, f)),
        }
    }
}

/// Reading an EXIF (TIFF) block: the tags it appends and the outcome.
/// `None` where the reading goes out of bounds or nests without end.
pub open spec fn exif<F: Fn(i64, i64) -> String>(d: Seq<u8>, f: F) -> Option<(Seq<(Seq<char>, Seq<char>)>, Result<(), Error>)> {
    if d.len() < 8 {
        Some((Seq::empty(), Err(Error::Metadata)))
    } else {
        let big = d[0] == 0x4D && d[1] == 0x4D;
        if !big && !(d[0] == 0x49 && d[1] == 0x49) {
            Some((Seq::empty(), Err(Error::Metadata)))
        } else if u16_at(d, 2, big) != 42 {
            Some((Seq::empty(), Err(Error::Metadata)))
        } else {
            walk(d, u32_at(d, 4, big), 0, big, f)
        }
    }
}

/// The entries of the first (primary) directory are named from the primary
/// tag names (271 is `Make`): wherever reading the block gives tags, the
/// first of them is the first entry of that directory, under that name and
/// with its value.
pub proof fn lemma_primary_names<F: Fn(i64, i64) -> String>(d: Seq<u8>, f: F, code: int, text: Seq<char>)
    requires
        d.len() >= 8,
        (d[0] == 0x4D && d[1] == 0x4D) || (d[0] == 0x49 && d[1] == 0x49),
        u16_at(d, 2, d[0] == 0x4D && d[1] == 0x4D) == 42,
        ({
            let big = d[0] == 0x4D && d[1] == 0x4D;
            let pos = u32_at(d, 4, big);
            &&& 8 <= pos
            &&& pos + 2 <= d.len()
            &&& u16_at(d, pos, big) >= 1
            &&& entry(d, pos + 2, big, f) == Some(Ok::<(int, Seq<char>), Error>((code, text)))
        }),
        code != EXIF_POINTER && code != GPS_POINTER,
    ensures
        exif(d, f) matches Some((tags, _)) ==> tags.len() >= 1 && tags[0] == (lookup(PRIMARY_NAMES@, code), text),
{
    let big = d[0] == 0x4D && d[1] == 0x4D;
    let pos = u32_at(d, 4, big);
    let count = u16_at(d, pos, big);
    assert(count < 0x20000) by {
        if big {
            assert(be16(d[pos], d[pos + 1]) < 0x10000);
        } else {
            assert(be16(d[pos + 1], d[pos]) < 0x10000);
        }
    }
    lemma_walk_unfold(d, pos, 0, big, f);
    lemma_directory_unfold(d, pos, 1, big, f, (d.len() + 2) as nat);
    lemma_entries_unfold(d, pos, count, 0, 1, big, f, (d.len() + 2) as nat);
}

/// The directory at `cursor` starts with its entries.
pub proof fn lemma_directory_unfold<F: Fn(i64, i64) -> String>(d: Seq<u8>, cursor: int, table: int, big: bool, f: F, fuel: nat)
    requires
        fuel > 0,
        cursor + 2 <= d.len(),
    ensures
        ({
            let count = u16_at(d, cursor, big);
            directory(d, cursor, table, big, f, fuel) == match entries(d, cursor, count, 0, table, big, f, fuel) {
                None => None,
                Some((tags, Err(e))) => Some((tags, Err(e))),
                Some((tags, Ok(()))) => {
                    let next = cursor + 2 + 12 * count;
                    if next + 4 > d.len() {
                        None
                    } else {
                        Some((tags, Ok(u32_at(d, next, big))))
                    }
                },
            }
        }),
{
}

/// A directory read without fuel, or out of bounds, ends as the definition says.
pub proof fn lemma_directory_short<F: Fn(i64, i64) -> String>(d: Seq<u8>, cursor: int, table: int, big: bool, f: F, fuel: nat)
    ensures
        fuel == 0 ==> directory(d, cursor, table, big, f, fuel) is None,
        fuel > 0 && cursor + 2 > d.len() ==> directory(d, cursor, table, big, f, fuel) == Some((Seq::<(Seq<char>, Seq<char>)>::empty(), Err::<int, Error>(Error::Metadata))),
{
}

/// One step of the entries of a directory.
pub proof fn lemma_entries_unfold<F: Fn(i64, i64) -> String>(d: Seq<u8>, cursor: int, count: int, i: int, table: int, big: bool, f: F, fuel: nat)
    requires
        fuel > 0,
        count < 0x20000,
    ensures
        i >= count ==> entries(d, cursor, count, i, table, big, f, fuel) == Some((Seq::<(Seq<char>, Seq<char>)>::empty(), Ok::<(), Error>(()))),
        i < count ==> entries(d, cursor, count, i, table, big, f, fuel) == match entry(d, cursor + 2 + 12 * i, big, f) {
            None => None,
            Some(Err(e)) => Some((Seq::empty(), Err(e))),
            Some(Ok((name, value))) => {
                if name == EXIF_POINTER || name == GPS_POINTER {
                    match parse_u32(value) {
                        None => Some((Seq::empty(), Err(Error::Metadata))),
                        Some(sub) => {
                            let inner = if name == EXIF_POINTER { 2int } else { 3int };
                            match directory(d, sub as int, inner, big, f, (fuel - 1) as nat) {
                                None => None,
                                Some((tags, Err(e))) => Some((tags, Err(e))),
                                Some((tags, Ok(_))) => prepend(
                                    tags,
                                    entries(d, cursor, count, i + 1, table, big, f, fuel),
                                ),
                            }
                        },
                    }
                } else {
                    prepend(
                        seq![(table_name(table, name), value)],
                        entries(d, cursor, count, i + 1, table, big, f, fuel),
                    )
                }
            },
        },
{
}

/// The entries of the directory that a pointer leads to are named from the
/// tag names of that directory: through the EXIF pointer (34665) from the
/// EXIF names (33434 is `ExposureTime`), through the GPS pointer (34853)
/// from the GPS names (2 is `GPSLatitude`). Wherever reading the pointer
/// entry gives tags, the first of them is the first entry of the directory
/// it points at, under that name and with its value.
pub proof fn lemma_pointer_names<F: Fn(i64, i64) -> String>(d: Seq<u8>, cursor: int, count: int, i: int, table: int, big: bool, f: F, fuel: nat, sub: u32, name: int, value: Seq<char>, code: int, text: Seq<char>)
    requires
        fuel > 1,
        count < 0x20000,
        0 <= i < count,
        entry(d, cursor + 2 + 12 * i, big, f) == Some(Ok::<(int, Seq<char>), Error>((name, value))),
        name == EXIF_POINTER || name == GPS_POINTER,
        parse_u32(value) == Some(sub),
        sub + 2 <= d.len(),
        u16_at(d, sub as int, big) >= 1,
        entry(d, sub + 2, big, f) == Some(Ok::<(int, Seq<char>), Error>((code, text))),
        code != EXIF_POINTER && code != GPS_POINTER,
    ensures
        entries(d, cursor, count, i, table, big, f, fuel) matches Some((tags, _)) ==> tags.len() >= 1
            && tags[0] == (lookup(if name == EXIF_POINTER { EXIF_NAMES@ } else { GPS_NAMES@ }, code), text),
{
    let inner = if name == EXIF_POINTER { 2int } else { 3int };
    let count2 = u16_at(d, sub as int, big);
    assert(count2 < 0x20000) by {
        if big {
            assert(be16(d[sub as int], d[sub + 1]) < 0x10000);
        } else {
            assert(be16(d[sub + 1], d[sub as int]) < 0x10000);
        }
    }
    lemma_entries_unfold(d, cursor, count, i, table, big, f, fuel);
    lemma_directory_unfold(d, sub as int, inner, big, f, (fuel - 1) as nat);
    lemma_entries_unfold(d, sub as int, count2, 0, inner, big, f, (fuel - 1) as nat);
}

/// One step along the chain of primary directories.
pub proof fn lemma_walk_unfold<F: Fn(i64, i64) -> String>(d: Seq<u8>, pos: int, k: int, big: bool, f: F)
    ensures
        walk(d, pos, k, big, f) == if k >= 2 || pos == 0 {
            Some((Seq::<(Seq<char>, Seq<char>)>::empty(), Ok::<(), Error>(())))
        } else if pos < 8 || pos > d.len() {
            Some((Seq::<(Seq<char>, Seq<char>)>::empty(), Err::<(), Error>(Error::Metadata)))
        } else {
            match directory(d, pos, 1, big, f, (d.len() + 2) as nat) {
                None => None,
                Some((tags, Err(e))) => Some((tags, Err(e))),
                Some((tags, Ok(next))) => prepend(tags, walk(d, next, k + 1, big, f)),
            }
        },
{
    reveal_with_fuel(walk, 1);
}

/// The value text of one entry; `None` where the value is too short for
/// what is read from it.
fn render_value<F: Fn(i64, i64) -> String>(value: &[u8], t: u16, count: u64, big: bool, ratio: &F) -> (r: Option<String>)
    requires
        renders(*ratio),
        value@.len() == count * type_size(t as int),
    ensures
        match render(value@, t as int, count as int, big, *ratio) {
            None => r is None,
            Some(text) => r matches Some(s) && s@ == text,
        },
{
    if t == 1 {
        if count == 0 {
            return Some(empty());
        }
        let piece = decimal_text(value[0] as u64);
        Some(repeat_text(piece.as_str(), count))
    } else if t == 2 || t == 129 {
        if count == 0 {
            return None;
        }
        let last = value.len() - 1;
        Some(lossy(&value[0..last]))
    } else if t == 3 {
        if count == 0 {
            return Some(empty());
        }
        let piece = decimal_text(read_u16(value, 0, big) as u64);
        Some(repeat_text(piece.as_str(), count))
    } else if t == 4 {
        if count == 0 {
            return Some(empty());
        }
        let piece = decimal_text(read_u32(value, 0, big) as u64);
        Some(repeat_text(piece.as_str(), count))
    } else if t == 5 {
        if count == 0 {
            return None;
        }
        let n = read_u32(value, 0, big);
        let m = read_u32(value, 4, big);
        Some(render_ratio(ratio, n as i64, m as i64))
    } else if t == 7 {
        if value.len() < 4 {
            return None;
        }
        Some(lossy(&value[0..4]))
    } else if t == 9 {
        if count == 0 {
            return Some(empty());
        }
        let piece = signed_text(to_signed(read_u32(value, 0, big)) as i64);
        Some(repeat_text(piece.as_str(), count))
    } else if t == 10 {
        if count == 0 {
            return None;
        }
        let n = to_signed(read_u32(value, 0, big));
        let m = to_signed(read_u32(value, 4, big));
        Some(render_ratio(ratio, n as i64, m as i64))
    } else {
        Some(empty())
    }
}

/// Reads the 12-byte entry at `cursor`: its code and its value text;
/// `None` where reading its value goes out of bounds.
fn parse_entry<F: Fn(i64, i64) -> String>(data: &[u8], cursor: u64, big: bool, ratio: &F) -> (r: Option<Result<(u16, String), Error>>)
    requires
        renders(*ratio),
        cursor <= u32::MAX + 0x10_0000,
    ensures
        match entry(data@, cursor as int, big, *ratio) {
            None => r is None,
            Some(Ok((name, value))) => r matches Some(Ok((n, v))) && n == name && v@ == value,
            Some(Err(e)) => r == Some(Err::<(u16, String), Error>(e)),
        },
{
    let len = data.len() as u64;
    if cursor + 12 > len {
        return Some(Err(Error::Metadata));
    }
    let c = cursor as usize;
    let name = read_u16(data, c, big);
    let t = read_u16(data, c + 2, big);
    let count = read_u32(data, c + 4, big) as u64;
    let unit = type_size_of(t);
    assert(count * unit <= 0xFFFF_FFFF * 8) by (nonlinear_arith)
        requires
            count <= 0xFFFF_FFFF,
            unit <= 8,
    {
    }
    let size = count * unit;
    let start = if size > 4 {
        let offset = read_u32(data, c + 8, big) as u64;
        if offset + size > len {
            return Some(Err(Error::Metadata));
        }
        offset
    } else {
        cursor + 8
    };
    let value = &data[start as usize..(start + size) as usize];
    match render_value(value, t, count, big, ratio) {
        Some(text) => Some(Ok((name, text))),
        None => None,
    }
}

/// How many bytes one value of an entry type takes.
fn type_size_of(t: u16) -> (r: u64)
    ensures
        r == type_size(t as int),
{
    if t == 1 || t == 2 || t == 129 || t == 7 {
        1
    } else if t == 3 {
        2
    } else if t == 4 || t == 9 {
        4
    } else if t == 5 || t == 10 {
        8
    } else {
        0
    }
}

pub proof fn lemma_prepend_assoc<T>(a: Seq<(Seq<char>, Seq<char>)>, b: Seq<(Seq<char>, Seq<char>)>, x: Option<(Seq<(Seq<char>, Seq<char>)>, T)>)
    ensures
        prepend(a, prepend(b, x)) == prepend(a + b, x),
{
    match x {
        None => {},
        Some((t, r)) => {
            assert(a + (b + t) =~= (a + b) + t);
        },
    }
}

pub proof fn lemma_prepend_empty<T>(x: Option<(Seq<(Seq<char>, Seq<char>)>, T)>)
    ensures
        prepend(Seq::empty(), x) == x,
{
    match x {
        None => {},
        Some((t, r)) => {
            assert(Seq::<(Seq<char>, Seq<char>)>::empty() + t =~= t);
        },
    }
}

/// The name table for directory kind `table`.
fn names_for(table: u8, code: u16) -> (r: String)
    requires
        1 <= table <= 3,
    ensures
        r@ == table_name(table as int, code as int),
{
    if table == 1 {
        owned(find_name(&PRIMARY_NAMES, code))
    } else if table == 2 {
        owned(find_name(&EXIF_NAMES, code))
    } else {
        owned(find_name(&GPS_NAMES, code))
    }
}

/// Reads entry `i` of the directory at `cursor`: appends its tag, or the
/// tags of the directory it points at. `None` where reading goes out of
/// bounds or nests without end.
fn parse_one<F: Fn(i64, i64) -> String>(
    data: &[u8],
    cursor: u64,
    count: u64,
    i: u64,
    table: u8,
    big: bool,
    metadata: &mut Vec<Tag>,
    ratio: &F,
    fuel: u128,
) -> (res: (Option<Result<(), Error>>, Ghost<Seq<(Seq<char>, Seq<char>)>>))
    requires
        renders(*ratio),
        1 <= table <= 3,
        cursor <= u32::MAX,
        i < count < 0x10000,
        fuel > 0,
    ensures
        res.0 is Some ==> pushed(final(metadata)@, old(metadata)@, res.1@),
        match res.0 {
            None => entries(data@, cursor as int, count as int, i as int, table as int, big, *ratio, fuel as nat) is None,
            Some(Err(e)) => entries(data@, cursor as int, count as int, i as int, table as int, big, *ratio, fuel as nat) == Some((res.1@, Err::<(), Error>(e))),
            Some(Ok(())) => entries(data@, cursor as int, count as int, i as int, table as int, big, *ratio, fuel as nat) == prepend(res.1@, entries(data@, cursor as int, count as int, i + 1, table as int, big, *ratio, fuel as nat)),
        },
    decreases fuel, 0int,
{
    let ghost d = data@;
    let ghost f = *ratio;
    proof {
        lemma_pushed_none(metadata@);
        lemma_entries_unfold(d, cursor as int, count as int, i as int, table as int, big, f, fuel as nat);
    }
    let entry = match parse_entry(data, cursor + 2 + 12 * i, big, ratio) {
        Some(entry) => entry,
        None => return (None, Ghost(Seq::empty())),
    };
    match entry {
        Err(e) => (Some(Err(e)), Ghost(Seq::empty())),
        Ok((name, value)) => {
            if name == EXIF_POINTER || name == GPS_POINTER {
                match text_to_u32(value.as_str()) {
                    None => (Some(Err(Error::Metadata)), Ghost(Seq::empty())),
                    Some(sub) => {
                        let inner: u8 = if name == EXIF_POINTER { 2 } else { 3 };
                        let result = parse_directory(data, sub as u64, inner, big, metadata, ratio, fuel - 1);
                        let ghost tags = match directory(d, sub as int, inner as int, big, f, (fuel - 1) as nat) {
                            Some((t, _)) => t,
                            None => Seq::empty(),
                        };
                        match result {
                            None => (None, Ghost(tags)),
                            Some(Err(e)) => (Some(Err(e)), Ghost(tags)),
                            Some(Ok(_)) => (Some(Ok(())), Ghost(tags)),
                        }
                    },
                }
            } else {
                let label = names_for(table, name);
                let ghost pair = (label@, value@);
                push_pushed(metadata, label, value, Ghost(old(metadata)@), Ghost(Seq::empty()));
                proof {
                    assert(Seq::<(Seq<char>, Seq<char>)>::empty().push(pair) =~= seq![pair]);
                    lemma_prepend_assoc(Seq::empty(), seq![pair], entries(d, cursor as int, count as int, i + 1, table as int, big, f, fuel as nat));
                }
                (Some(Ok(())), Ghost(Seq::empty().push(pair)))
            }
        },
    }
}

/// Reads the directory at `cursor`, appending its tags (those of the EXIF
/// and GPS directories it points at included); gives the position of the
/// next directory. `None` where reading goes out of bounds or nests without
/// end.
fn parse_directory<F: Fn(i64, i64) -> String>(
    data: &[u8],
    cursor: u64,
    table: u8,
    big: bool,
    metadata: &mut Vec<Tag>,
    ratio: &F,
    fuel: u128,
) -> (r: Option<Result<u32, Error>>)
    requires
        renders(*ratio),
        1 <= table <= 3,
        cursor <= u32::MAX,
    ensures
        match directory(data@, cursor as int, table as int, big, *ratio, fuel as nat) {
            None => r is None,
            Some((tags, res)) => pushed(final(metadata)@, old(metadata)@, tags) && match res {
                Ok(p) => r == Some(Ok::<u32, Error>(p as u32)),
                Err(e) => r == Some(Err::<u32, Error>(e)),
            },
        },
    decreases fuel, 1int,
{
    let ghost d = data@;
    let ghost f = *ratio;
    let ghost start = metadata@;
    proof {
        lemma_pushed_none(metadata@);
    }
    let len = data.len() as u64;
    if fuel == 0 {
        proof {
            lemma_directory_short(d, cursor as int, table as int, big, f, fuel as nat);
        }
        return None;
    }
    if cursor + 2 > len {
        proof {
            lemma_directory_short(d, cursor as int, table as int, big, f, fuel as nat);
        }
        return Some(Err(Error::Metadata));
    }
    let count = read_u16(data, cursor as usize, big) as u64;
    assert(count == u16_at(d, cursor as int, big));
    proof {
        lemma_directory_unfold(d, cursor as int, table as int, big, f, fuel as nat);
    }
    let ghost total = entries(d, cursor as int, count as int, 0, table as int, big, f, fuel as nat);
    let ghost mut done: Seq<(Seq<char>, Seq<char>)> = Seq::empty();
    let mut i: u64 = 0;
    proof {
        lemma_prepend_empty(total);
    }
    while i < count
        invariant
            renders(*ratio),
            f == *ratio,
            d == data@,
            1 <= table <= 3,
            cursor <= u32::MAX,
            cursor + 2 <= len,
            len == data@.len(),
            count < 0x10000,
            fuel > 0,
            i <= count,
            total == entries(d, cursor as int, count as int, 0, table as int, big, f, fuel as nat),
            directory(d, cursor as int, table as int, big, f, fuel as nat) == match total {
                None => None,
                Some((tags, Err(e))) => Some((tags, Err(e))),
                Some((tags, Ok(()))) => {
                    let next = cursor + 2 + 12 * count;
                    if next + 4 > d.len() {
                        None
                    } else {
                        Some((tags, Ok(u32_at(d, next, big))))
                    }
                },
            },
            total == prepend(done, entries(d, cursor as int, count as int, i as int, table as int, big, f, fuel as nat)),
            pushed(metadata@, start, done),
            start == old(metadata)@,
        decreases count - i,
    {
        let ghost before_tags = metadata@;
        let (result, Ghost(step)) = parse_one(data, cursor, count, i, table, big, metadata, ratio, fuel);
        match result {
            None => {
                return None;
            },
            Some(Err(e)) => {
                proof {
                    lemma_pushed_trans(start, before_tags, metadata@, done, step);
                }
                assert(total == Some((done + step, Err::<(), Error>(e))));
                return Some(Err(e));
            },
            Some(Ok(())) => {
                proof {
                    lemma_pushed_trans(start, before_tags, metadata@, done, step);
                    lemma_prepend_assoc(done, step, entries(d, cursor as int, count as int, i + 1, table as int, big, f, fuel as nat));
                    done = done + step;
                }
            },
        }
        i += 1;
    }
    proof {
        lemma_entries_unfold(d, cursor as int, count as int, i as int, table as int, big, f, fuel as nat);
        assert(done + Seq::<(Seq<char>, Seq<char>)>::empty() =~= done);
    }
    let next = cursor + 2 + 12 * count;
    if next + 4 > len {
        return None;
    }
    Some(Ok(read_u32(data, next as usize, big)))
}

/// Reads an EXIF (TIFF) block, appending its tags to `metadata`: the
/// primary directory, the one after it, and the EXIF and GPS directories
/// they point at. Rational values are rendered by `ratio`.
pub fn get<F: Fn(i64, i64) -> String>(data: &[u8], metadata: &mut Vec<Tag>, ratio: &F) -> (r: Result<(), Error>)
    requires
        renders(*ratio),
        exif(data@, *ratio) is Some,
    ensures
        pushed(final(metadata)@, old(metadata)@, exif(data@, *ratio).unwrap().0),
        r == exif(data@, *ratio).unwrap().1,
{
    match read(data, metadata, ratio) {
        Some(r) => r,
        None => Err(Error::Metadata),
    }
}

/// Reads an EXIF block as `get` does, on every block: `None` where reading
/// goes out of bounds or directories nest without end, which `get` leaves
/// out.
pub fn read<F: Fn(i64, i64) -> String>(data: &[u8], metadata: &mut Vec<Tag>, ratio: &F) -> (r: Option<Result<(), Error>>)
    requires
        renders(*ratio),
    ensures
        match exif(data@, *ratio) {
            None => r is None,
            Some((tags, res)) => r == Some(res) && pushed(final(metadata)@, old(metadata)@, tags),
        },
{
    proof {
        lemma_pushed_none(metadata@);
    }
    if data.len() < 8 {
        return Some(Err(Error::Metadata));
    }
    if data[0] == 0x4D && data[1] == 0x4D {
        parse(data, true, metadata, ratio)
    } else if data[0] == 0x49 && data[1] == 0x49 {
        parse(data, false, metadata, ratio)
    } else {
        Some(Err(Error::Metadata))
    }
}

/// Reads the TIFF header and follows the chain of primary directories.
fn parse<F: Fn(i64, i64) -> String>(data: &[u8], big: bool, metadata: &mut Vec<Tag>, ratio: &F) -> (r: Option<Result<(), Error>>)
    requires
        renders(*ratio),
        data@.len() >= 8,
    ensures
        u16_at(data@, 2, big) != 42 ==> final(metadata)@ == old(metadata)@ && r == Some(Err::<(), Error>(Error::Metadata)),
        u16_at(data@, 2, big) == 42 ==> match walk(data@, u32_at(data@, 4, big), 0, big, *ratio) {
            None => r is None,
            Some((tags, res)) => pushed(final(metadata)@, old(metadata)@, tags) && r == Some(res),
        },
{
    let ghost d = data@;
    let ghost f = *ratio;
    let ghost start = metadata@;
    proof {
        lemma_pushed_none(metadata@);
    }
    let value = read_u16(data, 2, big);
    if value != 42 {
        return Some(Err(Error::Metadata));
    }
    let mut position = read_u32(data, 4, big) as u64;
    let ghost total = walk(d, position as int, 0, big, f);
    let ghost mut done: Seq<(Seq<char>, Seq<char>)> = Seq::empty();
    let mut k: u64 = 0;
    let len = data.len() as u64;
    proof {
        lemma_prepend_empty(total);
    }
    while k < 2
        invariant
            renders(*ratio),
            f == *ratio,
            d == data@,
            len == data@.len(),
            u16_at(d, 2, big) == 42,
            total == walk(d, u32_at(d, 4, big), 0, big, f),
            k <= 2,
            position <= u32::MAX,
            total == prepend(done, walk(d, position as int, k as int, big, f)),
            pushed(metadata@, start, done),
            start == old(metadata)@,
        ensures
            k >= 2 || position == 0,
            total == prepend(done, walk(d, position as int, k as int, big, f)),
            pushed(metadata@, start, done),
            start == old(metadata)@,
            total == walk(d, u32_at(d, 4, big), 0, big, f),
            u16_at(d, 2, big) == 42,
        decreases 2 - k,
    {
        proof {
            lemma_walk_unfold(d, position as int, k as int, big, f);
        }
        if position == 0 {
            break;
        }
        if position < 8 || position > len {
            proof {
                assert(done + Seq::<(Seq<char>, Seq<char>)>::empty() =~= done);
            }
            return Some(Err(Error::Metadata));
        }
        let ghost before_tags = metadata@;
        let fuel = len as u128 + 2;
        let result = parse_directory(data, position, 1, big, metadata, ratio, fuel);
        match result {
            None => {
                return None;
            },
            Some(Err(e)) => {
                proof {
                    let inner_tags = directory(d, position as int, 1, big, f, fuel as nat).unwrap().0;
                    lemma_pushed_trans(start, before_tags, metadata@, done, inner_tags);
                }
                return Some(Err(e));
            },
            Some(Ok(next)) => {
                proof {
                    let inner_tags = directory(d, position as int, 1, big, f, fuel as nat).unwrap().0;
                    lemma_pushed_trans(start, before_tags, metadata@, done, inner_tags);
                    lemma_prepend_assoc(done, inner_tags, walk(d, next as int, k + 1, big, f));
                    done = done + inner_tags;
                }
                position = next as u64;
            },
        }
        k += 1;
    }
    proof {
        lemma_walk_unfold(d, position as int, k as int, big, f);
        assert(done + Seq::<(Seq<char>, Seq<char>)>::empty() =~= done);
    }
    Some(Ok(()))
}

} // verus!
