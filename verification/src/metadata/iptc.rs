use crate::{
    Error, Tag, pushed, push_pushed, lemma_pushed_none, lemma_pushed_trans,
    metadata::exif::{lemma_prepend_assoc, lemma_prepend_empty, prepend},
    text::{decimal, decimal_text, empty, lossy, owned, utf8_lossy, utf8_text},
    utilities::bytes::{be16, be32, read_u16, read_u32},
};
use vstd::prelude::*;

verus! {

/// Dataset kind: a text value.
pub const TEXT: u8 = 0;

/// Dataset kind: a number as long as the whole value.
pub const WHOLE: u8 = 255;

/// The IPTC datasets by record and tag: name and kind (`TEXT`, `WHOLE`, or
/// the number of bytes of a big-endian number).
pub const DATASETS: [(u8, u8, &'static str, u8); 116] = [
    (1, 0, "EnvelopeRecordVersion", 2),
    (1, 5, "Destination", TEXT),
    (1, 20, "FileFormat", 2),
    (1, 22, "FileVersion", 2),
    (1, 30, "ServiceIdentifier", TEXT),
    (1, 40, "EnvelopeNumber", TEXT),
    (1, 50, "ProductID", TEXT),
    (1, 60, "EnvelopePriority", TEXT),
    (1, 70, "DateSent", TEXT),
    (1, 80, "TimeSent", TEXT),
    (1, 90, "CodedCharacterSet", TEXT),
    (1, 100, "UniqueObjectName", TEXT),
    (1, 120, "ARMIdentifier", 2),
    (1, 122, "ARMVersion", 2),
    (2, 0, "ApplicationRecordVersion", 2),
    (2, 3, "ObjectTypeReference", TEXT),
    (2, 4, "ObjectAttributeReference", TEXT),
    (2, 5, "ObjectName", TEXT),
    (2, 7, "EditStatus", TEXT),
    (2, 8, "EditorialUpdate", TEXT),
    (2, 10, "Urgency", TEXT),
    (2, 12, "SubjectReference", TEXT),
    (2, 15, "Category", TEXT),
    (2, 20, "SupplementalCategories", TEXT),
    (2, 22, "FixtureIdentifier", TEXT),
    (2, 25, "Keywords", TEXT),
    (2, 26, "ContentLocationCode", TEXT),
    (2, 27, "ContentLocationName", TEXT),
    (2, 30, "ReleaseDate", TEXT),
    (2, 35, "ReleaseTime", TEXT),
    (2, 37, "ExpirationDate", TEXT),
    (2, 38, "ExpirationTime", TEXT),
    (2, 40, "SpecialInstructions", TEXT),
    (2, 42, "ActionAdvised", TEXT),
    (2, 45, "ReferenceService", TEXT),
    (2, 47, "ReferenceDate", TEXT),
    (2, 50, "ReferenceNumber", TEXT),
    (2, 55, "DateCreated", TEXT),
    (2, 60, "TimeCreated", TEXT),
    (2, 62, "DigitalCreationDate", TEXT),
    (2, 63, "DigitalCreationTime", TEXT),
    (2, 65, "OriginatingProgram", TEXT),
    (2, 70, "ProgramVersion", TEXT),
    (2, 75, "ObjectCycle", TEXT),
    (2, 80, "By-line", TEXT),
    (2, 85, "By-lineTitle", TEXT),
    (2, 90, "City", TEXT),
    (2, 92, "Sub-location", TEXT),
    (2, 95, "Province-State", TEXT),
    (2, 100, "Country-PrimaryLocationCode", TEXT),
    (2, 101, "Country-PrimaryLocationName", TEXT),
    (2, 103, "OriginalTransmissionReference", TEXT),
    (2, 105, "Headline", TEXT),
    (2, 110, "Credit", TEXT),
    (2, 115, "Source", TEXT),
    (2, 116, "CopyrightNotice", TEXT),
    (2, 118, "Contact", TEXT),
    (2, 120, "Caption-Abstract", TEXT),
    (2, 121, "LocalCaption", TEXT),
    (2, 122, "Writer-Editor", TEXT),
    (2, 125, "RasterizedCaption", TEXT),
    (2, 130, "ImageType", TEXT),
    (2, 131, "ImageOrientation", TEXT),
    (2, 135, "LanguageIdentifier", TEXT),
    (2, 150, "AudioType", TEXT),
    (2, 151, "AudioSamplingRate", TEXT),
    (2, 152, "AudioSamplingResolution", TEXT),
    (2, 153, "AudioDuration", TEXT),
    (2, 154, "AudioOutcue", TEXT),
    (2, 184, "JobID", TEXT),
    (2, 185, "MasterDocumentID", TEXT),
    (2, 186, "ShortDocumentID", TEXT),
    (2, 187, "UniqueDocumentID", TEXT),
    (2, 188, "OwnerID", TEXT),
    (2, 200, "ObjectPreviewFileFormat", 2),
    (2, 201, "ObjectPreviewFileVersion", 2),
    (2, 202, "ObjectPreviewData", TEXT),
    (2, 221, "Prefs", TEXT),
    (2, 225, "ClassifyState", TEXT),
    (2, 228, "SimilarityIndex", TEXT),
    (2, 230, "DocumentNotes", TEXT),
    (2, 231, "DocumentHistory", TEXT),
    (2, 232, "ExifCameraInfo", TEXT),
    (2, 255, "CatalogSets", TEXT),
    (3, 0, "NewsPhotoVersion", 2),
    (3, 10, "IPTCPictureNumber", TEXT),
    (3, 20, "IPTCImageWidth", 2),
    (3, 30, "IPTCImageHeight", 2),
    (3, 40, "IPTCPixelWidth", 2),
    (3, 50, "IPTCPixelHeight", 2),
    (3, 55, "SupplementalType", 1),
    (3, 60, "ColorRepresentation", 2),
    (3, 64, "InterchangeColorSpace", 1),
    (3, 65, "ColorSequence", 1),
    (3, 66, "ICC_Profile", TEXT),
    (3, 70, "ColorCalibrationMatrix", TEXT),
    (3, 80, "LookupTable", TEXT),
    (3, 84, "NumIndexEntries", 2),
    (3, 85, "ColorPalette", TEXT),
    (3, 86, "IPTCBitsPerSample", 1),
    (3, 90, "SampleStructure", 1),
    (3, 100, "ScanningDirection", 1),
    (3, 102, "IPTCImageRotation", 1),
    (3, 110, "DataCompressionMethod", 4),
    (3, 120, "QuantizationMethod", 1),
    (3, 125, "EndPoints", TEXT),
    (3, 130, "ExcursionTolerance", 1),
    (3, 135, "BitsPerComponent", 1),
    (3, 140, "MaximumDensityRange", 2),
    (3, 145, "GammaCompensatedValue", 2),
    (7, 10, "SizeMode", 1),
    (7, 20, "MaxSubfileSize", WHOLE),
    (7, 90, "ObjectSizeAnnounced", WHOLE),
    (7, 95, "MaximumObjectSize", WHOLE),
    (8, 10, "SubFile", 2),
    (9, 10, "ConfirmedObjectSize", WHOLE),
];

/// The entry of a table of datasets for `record` and `tag`: the first one.
pub open spec fn dataset(table: Seq<(u8, u8, &'static str, u8)>, record: u8, tag: u8) -> Option<(Seq<char>, u8)>
    decreases table.len(),
{
    if table.len() == 0 {
        None
    } else if table[0].0 == record && table[0].1 == tag {
        Some((table[0].2@, table[0].3))
    } else {
        dataset(table.drop_first(), record, tag)
    }
}

/// The number that the first `k` bytes of `v` spell, most significant first.
pub open spec fn be_number(v: Seq<u8>, k: int) -> nat
    decreases k,
{
    if k <= 0 {
        0
    } else {
        be_number(v, k - 1) * 256 + v[k - 1] as nat
    }
}

/// 256 to the power `k`.
pub open spec fn pow256(k: nat) -> nat
    decreases k,
{
    if k == 0 { 1 } else { pow256((k - 1) as nat) * 256 }
}

/// The name and value text of a dataset; `None` where a number is read
/// past the end of the value.
pub open spec fn name_value(v: Seq<u8>, record: u8, tag: u8) -> Option<(Seq<char>, Seq<char>)> {
    match dataset(DATASETS@, record, tag) {
        None => Some((crate::UNKNOWN@, Seq::empty())),
        Some((name, kind)) => {
            if kind == TEXT {
                Some((name, utf8_text(v)))
            } else {
                let k = if kind == WHOLE { v.len() as int } else { kind as int };
                let m = if k < 8 { k } else { 8 };
                if v.len() < m {
                    None
                } else {
                    Some((name, decimal(be_number(v, m))))
                }
            }
        },
    }
}

/// A dataset whose table kind is a number of `kind` bytes is reported as the
/// decimal of the big-endian number its first `kind` bytes (at most eight)
/// spell, never as text: a two-byte number with bytes `a b` reads as
/// `256 a + b` (record 2 tag 0, `ApplicationRecordVersion`, with bytes
/// 00 04 gives "4").
pub proof fn lemma_number_dataset(v: Seq<u8>, record: u8, tag: u8, name: Seq<char>, kind: u8)
    requires
        dataset(DATASETS@, record, tag) == Some((name, kind)),
        kind != TEXT,
        kind != WHOLE,
        v.len() >= if kind < 8 { kind as int } else { 8 },
    ensures
        name_value(v, record, tag) == Some((name, decimal(be_number(v, if kind < 8 { kind as int } else { 8 })))),
        kind == 2 ==> name_value(v, record, tag) == Some((name, decimal((v[0] * 256 + v[1]) as nat))),
{
    if kind == 2 {
        reveal_with_fuel(be_number, 3);
    }
}

/// A text dataset is reported as its bytes decoded as UTF-8: where they are
/// well-formed UTF-8, the text encodes back to exactly those bytes.
pub proof fn lemma_text_dataset(v: Seq<u8>, record: u8, tag: u8, name: Seq<char>)
    requires
        dataset(DATASETS@, record, tag) == Some((name, TEXT)),
        vstd::utf8::valid_utf8(v),
    ensures
        name_value(v, record, tag) matches Some((n, t)) && n == name && vstd::utf8::encode_utf8(t) == v,
{
    vstd::utf8::decode_utf8_encode_utf8(v);
}

/// The datasets from position `i` up to `max`: the tags they append and the
/// outcome.
pub open spec fn datasets(d: Seq<u8>, i: int, max: int) -> Option<(Seq<(Seq<char>, Seq<char>)>, Result<(), Error>)>
    decreases if max > i { max - i } else { 0 },
{
    if i >= max {
        Some((Seq::empty(), Ok(())))
    } else if i + 5 > d.len() {
        Some((Seq::empty(), Err(Error::Metadata)))
    } else {
        let size = be16(d[i + 3], d[i + 4]);
        if i + 5 + size > d.len() {
            Some((Seq::empty(), Err(Error::Metadata)))
        } else {
            match name_value(d.subrange(i + 5, i + 5 + size), d[i + 1], d[i + 2]) {
                None => None,
                Some(pair) => prepend(seq![pair], datasets(d, i + 5 + size, max)),
            }
        }
    }
}

/// Reading a Photoshop image resource block (`8BIM`): the IPTC tags of an
/// IPTC-NAA resource and the outcome. `None` where a read goes out of
/// bounds.
pub open spec fn iptc(d: Seq<u8>) -> Option<(Seq<(Seq<char>, Seq<char>)>, Result<(), Error>)> {
    if d.len() < 12 || d[0] != 0x38 || d[1] != 0x42 || d[2] != 0x49 || d[3] != 0x4D {
        Some((Seq::empty(), Err(Error::Metadata)))
    } else if d[4] != 4 || d[5] != 4 {
        Some((Seq::empty(), Ok(())))
    } else {
        let name = be16(d[6], d[7]);
        if name + 12 > d.len() {
            None
        } else {
            let size = be32(d[name + 8], d[name + 9], d[name + 10], d[name + 11]);
            datasets(d, name + 12, name + 12 + size)
        }
    }
}

/// Looks a dataset up by record and tag.
fn find_dataset(record: u8, tag: u8) -> (r: Option<(&'static str, u8)>)
    ensures
        match dataset(DATASETS@, record, tag) {
            None => r is None,
            Some((name, kind)) => r matches Some((n, k)) && n@ == name && k == kind,
        },
{
    let table = &DATASETS;
    let mut i: usize = 0;
    assert(table@.skip(0) =~= table@);
    while i < table.len()
        invariant
            i <= table@.len(),
            table@ == DATASETS@,
            dataset(DATASETS@, record, tag) == dataset(table@.skip(i as int), record, tag),
        decreases table@.len() - i,
    {
        assert(table@.skip(i as int).drop_first() =~= table@.skip(i + 1));
        if table[i].0 == record && table[i].1 == tag {
            return Some((table[i].2, table[i].3));
        }
        i += 1;
    }
    None
}

proof fn lemma_pow256_monotone(a: nat, b: nat)
    requires
        a <= b,
    ensures
        pow256(a) <= pow256(b),
    decreases b - a,
{
    if a < b {
        lemma_pow256_monotone(a, (b - 1) as nat);
    }
}

/// The number that the first `k` bytes of `v` spell.
fn read_number(v: &[u8], k: usize) -> (r: u64)
    requires
        k <= 8,
        k <= v@.len(),
    ensures
        r == be_number(v@, k as int),
{
    assert(pow256(8) == 0x1_0000_0000_0000_0000) by {
        reveal_with_fuel(pow256, 9);
    }
    let mut number: u64 = 0;
    let mut i: usize = 0;
    while i < k
        invariant
            i <= k <= 8,
            k <= v@.len(),
            number == be_number(v@, i as int),
            number < pow256(i as nat),
            pow256(8) == 0x1_0000_0000_0000_0000,
        decreases k - i,
    {
        proof {
            lemma_pow256_monotone((i + 1) as nat, 8);
        }
        number = number * 256 + v[i] as u64;
        i += 1;
    }
    number
}

/// The name and value text of a dataset (`name_value` above); `None`
/// where a number is read past the end of the value.
fn dataset_text(value: &[u8], record: u8, tag: u8) -> (r: Option<(String, String)>)
    ensures
        match name_value(value@, record, tag) {
            None => r is None,
            Some(p) => r matches Some(q) && p == (q.0@, q.1@),
        },
{
    match find_dataset(record, tag) {
        None => Some((owned(crate::UNKNOWN), empty())),
        Some((name, kind)) => {
            if kind == TEXT {
                Some((owned(name), lossy(value)))
            } else {
                let k = if kind == WHOLE { value.len() } else { kind as usize };
                let m = if k < 8 { k } else { 8 };
                if value.len() < m {
                    return None;
                }
                Some((owned(name), decimal_text(read_number(value, m))))
            }
        },
    }
}

/// Reads a Photoshop image resource block, appending the tags of its
/// IPTC-NAA resource to `metadata`.
pub fn get(data: &[u8], metadata: &mut Vec<Tag>) -> (r: Result<(), Error>)
    requires
        iptc(data@) is Some,
    ensures
        pushed(final(metadata)@, old(metadata)@, iptc(data@).unwrap().0),
        r == iptc(data@).unwrap().1,
{
    match read(data, metadata) {
        Some(r) => r,
        None => Err(Error::Metadata),
    }
}

/// Reads a Photoshop image resource block as `get` does, on every block:
/// `None` where reading goes out of bounds (a length field that points past
/// the block, a number longer than its value), which `get` leaves out.
pub fn read(data: &[u8], metadata: &mut Vec<Tag>) -> (r: Option<Result<(), Error>>)
    ensures
        match iptc(data@) {
            None => r is None,
            Some((tags, res)) => r == Some(res) && pushed(final(metadata)@, old(metadata)@, tags),
        },
{
    let ghost d = data@;
    let ghost start = metadata@;
    proof {
        lemma_pushed_none(metadata@);
    }
    if data.len() < 12 || data[0] != 0x38 || data[1] != 0x42 || data[2] != 0x49 || data[3] != 0x4D {
        return Some(Err(Error::Metadata));
    }
    if data[4] != 4 || data[5] != 4 {
        return Some(Ok(()));
    }
    let name = read_u16(data, 6, true) as u64;
    if name + 12 > data.len() as u64 {
        return None;
    }
    let size = read_u32(data, name as usize + 8, true) as u64;
    let mut i: u64 = name + 12;
    let max: u64 = i + size;
    let len = data.len() as u64;
    let ghost total = datasets(d, i as int, max as int);
    let ghost mut done: Seq<(Seq<char>, Seq<char>)> = Seq::empty();
    proof {
        lemma_prepend_empty(total);
    }
    while i < max
        invariant
            d == data@,
            len == data@.len(),
            len <= usize::MAX,
            max <= 0x2_0000_0000,
            total == iptc(d),
            total == prepend(done, datasets(d, i as int, max as int)),
            pushed(metadata@, start, done),
            start == old(metadata)@,
        decreases if max > i { max - i } else { 0 },
    {
        if i + 5 > len {
            assert(datasets(d, i as int, max as int) == Some((Seq::<(Seq<char>, Seq<char>)>::empty(), Err::<(), Error>(Error::Metadata))));
            assert(done + Seq::<(Seq<char>, Seq<char>)>::empty() =~= done);
            return Some(Err(Error::Metadata));
        }
        assert(i < len);
        let at = i as usize;
        let size = read_u16(data, at + 3, true) as u64;
        if i + 5 + size > len {
            assert(done + Seq::<(Seq<char>, Seq<char>)>::empty() =~= done);
            return Some(Err(Error::Metadata));
        }
        let value = &data[at + 5..(i + 5 + size) as usize];
        let (label, text) = match dataset_text(value, data[at + 1], data[at + 2]) {
            Some(pair) => pair,
            None => return None,
        };
        let ghost pair = (label@, text@);
        push_pushed(metadata, label, text, Ghost(start), Ghost(done));
        proof {
            lemma_prepend_assoc(done, seq![pair], datasets(d, (i + 5 + size) as int, max as int));
            assert(done.push(pair) =~= done + seq![pair]);
            done = done.push(pair);
        }
        i = i + 5 + size;
    }
    assert(done + Seq::<(Seq<char>, Seq<char>)>::empty() =~= done);
    Some(Ok(()))
}

} // verus!
