use crate::{
    Error, Tag, renders, view_tags, push_tag,
    metadata::{
        exif::{self, exif},
        iptc::{self, iptc},
        png::{lemma_then_assoc, lemma_then_empty, then},
        xmp::{self, xmp},
    },
    text::{owned, same_bytes},
    utilities::{
        bytes::be16,
        stream::{Be, Bytes, Source, seek},
    },
};
use vstd::prelude::*;

verus! {

/// The identifier that opens a JFIF segment.
pub const JFIF: [u8; 5] = [0x4A, 0x46, 0x49, 0x46, 0x00];

/// The namespace that opens an APP1 segment holding an XMP packet.
pub const XAP: [u8; 29] = [
    0x68, 0x74, 0x74, 0x70, 0x3A, 0x2F, 0x2F, 0x6E, 0x73, 0x2E, 0x61, 0x64, 0x6F, 0x62, 0x65,
    0x2E, 0x63, 0x6F, 0x6D, 0x2F, 0x78, 0x61, 0x70, 0x2F, 0x31, 0x2E, 0x30, 0x2F, 0x00,
];

/// The identifier that opens an APP1 segment holding an EXIF block.
pub const EXIF_HEADER: [u8; 6] = [0x45, 0x78, 0x69, 0x66, 0x00, 0x00];

/// The identifier that opens an APP13 segment holding Photoshop resources.
pub const PHOTOSHOP: [u8; 14] = [0x50, 0x68, 0x6F, 0x74, 0x6F, 0x73, 0x68, 0x6F, 0x70, 0x20, 0x33, 0x2E, 0x30, 0x00];

/// The tags read from a segment, with where reading goes on.
pub type Outcome = Option<Result<(Seq<(Seq<char>, Seq<char>)>, int), Error>>;

/// Where entropy-coded data that starts at `i` ends: at the first 0xFF byte
/// followed by a byte other than zero (0xFF 0x00 stands for a data byte).
/// A file that ends first is cut short.
pub open spec fn scan_end(d: Seq<u8>, i: int) -> Result<int, Error>
    decreases d.len() - i,
{
    if i >= d.len() || i < 0 {
        Err(Error::File)
    } else if d[i] != 0xFF {
        scan_end(d, i + 1)
    } else if i + 1 >= d.len() {
        Err(Error::File)
    } else if d[i + 1] != 0 {
        Ok(i)
    } else {
        scan_end(d, i + 2)
    }
}

/// A JFIF (APP0) segment whose `size` bytes of data start at `q`: a
/// thumbnail is reported as such.
pub open spec fn jfif(d: Seq<u8>, q: int, size: int) -> Outcome {
    let len = d.len() as int;
    if size < 14 {
        Some(Ok((Seq::empty(), seek(len, q, size))))
    } else if q + 5 > len {
        Some(Err(Error::File))
    } else if d.subrange(q, q + 5) == JFIF@ {
        let w = seek(len, q + 5, 7);
        if w + 2 > len {
            Some(Err(Error::File))
        } else if d[w] > 0 && d[w + 1] > 0 {
            if 3 * d[w] * d[w + 1] > 255 {
                None
            } else {
                Some(Ok((seq![("Thumbnail"@, "<data>"@)], seek(len, w + 2, 3 * d[w] * d[w + 1]))))
            }
        } else {
            Some(Ok((Seq::empty(), w + 2)))
        }
    } else {
        Some(Ok((Seq::empty(), seek(len, q + 5, size - 5))))
    }
}

/// An APP1 segment whose `size` bytes of data start at `q`: an XMP packet
/// or an EXIF block.
pub open spec fn app1<F: Fn(i64, i64) -> String>(d: Seq<u8>, q: int, size: int, f: F) -> Outcome {
    if q + size > d.len() {
        Some(Err(Error::File))
    } else {
        let b = d.subrange(q, q + size);
        if size > 29 && b.subrange(0, 29) == XAP@ {
            let (tags, res) = xmp(b.subrange(29, size));
            match res {
                Err(e) => Some(Err(e)),
                Ok(()) => Some(Ok((tags, q + size))),
            }
        } else if size > 6 && b.subrange(0, 6) == EXIF_HEADER@ {
            match exif(b.subrange(6, size), f) {
                None => None,
                Some((_, Err(e))) => Some(Err(e)),
                Some((tags, Ok(()))) => Some(Ok((tags, q + size))),
            }
        } else {
            Some(Ok((Seq::empty(), q + size)))
        }
    }
}

/// An APP13 segment whose `size` bytes of data start at `q`: Photoshop
/// resources that hold IPTC data.
pub open spec fn app13(d: Seq<u8>, q: int, size: int) -> Outcome {
    if q + size > d.len() {
        Some(Err(Error::File))
    } else {
        let b = d.subrange(q, q + size);
        if size > 14 && b.subrange(0, 14) == PHOTOSHOP@ {
            match iptc(b.subrange(14, size)) {
                None => None,
                Some((_, Err(e))) => Some(Err(e)),
                Some((tags, Ok(()))) => Some(Ok((tags, q + size))),
            }
        } else {
            Some(Ok((Seq::empty(), q + size)))
        }
    }
}

/// A restart marker, or the start of a scan: entropy-coded data follows.
pub open spec fn is_scan(m: u8) -> bool {
    (0xD0 <= m && m <= 0xD7) || m == 0xDA
}

/// Reading the segment at `p` (there is at least a byte left): the tags it
/// gives and where the next segment starts, or the error. `None` where a
/// size in the file overflows the reading's arithmetic.
#[verifier::opaque]
pub open spec fn segment<F: Fn(i64, i64) -> String>(d: Seq<u8>, p: int, f: F) -> Outcome {
    let len = d.len() as int;
    if p + 2 > len || d[p] != 0xFF {
        Some(Err(Error::File))
    } else {
        let m = d[p + 1];
        let r = p + 2;
        if is_scan(m) {
            match scan_end(d, r) {
                Err(e) => Some(Err(e)),
                Ok(i) => Some(Ok((Seq::empty(), i))),
            }
        } else if m == 0xD8 || m == 0xD9 {
            Some(Ok((Seq::empty(), r)))
        } else if r + 2 > len {
            Some(Err(Error::File))
        } else {
            let v = be16(d[r], d[r + 1]);
            if v < 2 {
                None
            } else if m == 0xE0 {
                jfif(d, r + 2, v - 2)
            } else if m == 0xE1 {
                app1(d, r + 2, v - 2, f)
            } else if m == 0xED {
                app13(d, r + 2, v - 2)
            } else {
                Some(Ok((Seq::empty(), seek(len, r + 2, v - 2))))
            }
        }
    }
}

/// Reading the segments of a JPEG file from position `p`: the tags, or the
/// error. `None` where a size in the file overflows the
/// reading's arithmetic.
pub open spec fn segments<F: Fn(i64, i64) -> String>(d: Seq<u8>, p: int, f: F) -> Option<Result<Seq<(Seq<char>, Seq<char>)>, Error>>
    decreases d.len() - p,
{
    if p >= d.len() || p < 0 {
        Some(Ok(Seq::empty()))
    } else {
        match segment(d, p, f) {
            None => None,
            Some(Err(e)) => Some(Err(e)),
            Some(Ok((tags, q))) => if q <= p || q > d.len() {
                None
            } else {
                then(tags, segments(d, q, f))
            },
        }
    }
}

/// Reading goes from each segment with a length that fits in the file to
/// the next one, after its length and data: the tags of the segments from
/// `p` on are those of an APP1 segment's XMP packet or EXIF block, of an
/// APP13 segment's IPTC data, or none for a segment of another kind (JFIF
/// and entropy-coded data aside), followed by the tags of the segments
/// after it.
pub proof fn lemma_segment_then_rest<F: Fn(i64, i64) -> String>(d: Seq<u8>, p: int, f: F)
    requires
        0 <= p,
        p + 4 <= d.len(),
        d[p] == 0xFF,
        !is_scan(d[p + 1]),
        d[p + 1] != 0xD8 && d[p + 1] != 0xD9 && d[p + 1] != 0xE0,
        be16(d[p + 2], d[p + 3]) >= 2,
        p + 2 + be16(d[p + 2], d[p + 3]) <= d.len(),
    ensures
        ({
            let v = be16(d[p + 2], d[p + 3]);
            let end = p + 2 + v;
            &&& d[p + 1] == 0xE1 ==> (app1(d, p + 4, v - 2, f) matches Some(Ok((tags, _)))
                ==> segments(d, p, f) == then(tags, segments(d, end, f)))
            &&& d[p + 1] == 0xED ==> (app13(d, p + 4, v - 2) matches Some(Ok((tags, _)))
                ==> segments(d, p, f) == then(tags, segments(d, end, f)))
            &&& d[p + 1] != 0xE1 && d[p + 1] != 0xED ==> segments(d, p, f) == segments(d, end, f)
        }),
{
    reveal(segment);
    let v = be16(d[p + 2], d[p + 3]);
    let end = p + 2 + v;
    match segments(d, end, f) {
        Some(Ok(m)) => {
            assert(Seq::<(Seq<char>, Seq<char>)>::empty() + m =~= m);
        },
        _ => {},
    }
}

/// Reading a JPEG file: the tags of its JFIF thumbnail, XMP, EXIF and IPTC
/// segments, or the error. `None` where a size in the file overflows the
/// reading's arithmetic.
pub open spec fn jpeg<F: Fn(i64, i64) -> String>(d: Seq<u8>, f: F) -> Option<Result<Seq<(Seq<char>, Seq<char>)>, Error>> {
    segments(d, 0, f)
}

/// What a reading of part of a segment did: the outcome `outcome` stands
/// for `r`, the tags appended and the position reached.
pub open spec fn reports(r: Option<Result<Ghost<Seq<(Seq<char>, Seq<char>)>>, Error>>, outcome: Outcome, before: Seq<Tag>, after: Seq<Tag>, position: int) -> bool {
    match outcome {
        None => r is None,
        Some(Err(e)) => r == Some(Err::<Ghost<Seq<(Seq<char>, Seq<char>)>>, Error>(e)),
        Some(Ok((tags, q))) => r matches Some(Ok(g)) && g@ == tags && position == q && view_tags(after) == view_tags(before) + tags,
    }
}

/// Moves over entropy-coded data, to the marker that ends it.
fn scan(source: &mut Source) -> (r: Result<(), Error>)
    requires
        old(source).wf(),
    ensures
        final(source).wf(),
        final(source).data@ == old(source).data@,
        match scan_end(old(source).data@, old(source).position as int) {
            Err(e) => r == Err::<(), Error>(e),
            Ok(i) => r is Ok && final(source).position == i,
        },
{
    let ghost d = source.data@;
    let ghost start = source.position as int;
    loop
        invariant
            source.wf(),
            source.data@ == d,
            d == old(source).data@,
            start == old(source).position,
            scan_end(d, start) == scan_end(d, source.position as int),
        decreases d.len() - source.position,
    {
        let value = Be::u8(source)?;
        if value == 0xFF {
            let next = Be::u8(source)?;
            if next != 0 {
                source.back(2);
                return Ok(());
            }
        }
    }
}

/// Reads a JFIF segment's data. `None` where a size in the file overflows
/// the reading's arithmetic.
fn read_jfif(source: &mut Source, size: u16, metadata: &mut Vec<Tag>) -> (r: Option<Result<Ghost<Seq<(Seq<char>, Seq<char>)>>, Error>>)
    requires
        old(source).wf(),
    ensures
        final(source).wf(),
        final(source).data@ == old(source).data@,
        reports(r, jfif(old(source).data@, old(source).position as int, size as int), old(metadata)@, final(metadata)@, final(source).position as int),
{
    let ghost d = source.data@;
    let ghost before = metadata@;
    let ghost empty = Seq::<(Seq<char>, Seq<char>)>::empty();
    assert(view_tags(before) + empty =~= view_tags(before));
    if size < 14 {
        source.skip(size as u64);
        return Some(Ok(Ghost(empty)));
    }
    let p = source.position;
    let name = match source.take(5) {
        Ok(name) => name,
        Err(e) => return Some(Err(e)),
    };
    if same_bytes(name, JFIF.as_slice()) {
        source.skip(7);
        let w = match Be::u8(source) {
            Ok(w) => w,
            Err(e) => return Some(Err(e)),
        };
        let h = match Be::u8(source) {
            Ok(h) => h,
            Err(e) => return Some(Err(e)),
        };
        if w > 0 && h > 0 {
            assert((w as u64) * (h as u64) <= 255 * 255) by (nonlinear_arith)
                requires w <= 255, h <= 255;
            let n: u64 = 3 * ((w as u64) * (h as u64));
            assert(n == 3 * w * h) by (nonlinear_arith)
                requires n == 3 * ((w as u64) * (h as u64));
            if n > 255 {
                return None;
            }
            let name = owned("Thumbnail");
            let value = owned("<data>");
            let ghost tag = (name@, value@);
            let ghost added = seq![tag];
            push_tag(metadata, name, value);
            assert(view_tags(before).push(tag) =~= view_tags(before) + seq![tag]);
            source.skip(n);
            Some(Ok(Ghost(added)))
        } else {
            Some(Ok(Ghost(empty)))
        }
    } else {
        source.skip(size as u64 - 5);
        Some(Ok(Ghost(empty)))
    }
}

/// Reads an APP1 segment's data: an XMP packet or an EXIF block. `None`
/// where a size in the file overflows the
/// reading's arithmetic.
fn read_app1<F: Fn(i64, i64) -> String>(source: &mut Source, size: u16, metadata: &mut Vec<Tag>, ratio: &F) -> (r: Option<Result<Ghost<Seq<(Seq<char>, Seq<char>)>>, Error>>)
    requires
        old(source).wf(),
        renders(*ratio),
    ensures
        final(source).wf(),
        final(source).data@ == old(source).data@,
        reports(r, app1(old(source).data@, old(source).position as int, size as int, *ratio), old(metadata)@, final(metadata)@, final(source).position as int),
{
    let ghost before = metadata@;
    let ghost f = *ratio;
    let block = match source.take(size as u64) {
        Ok(block) => block,
        Err(e) => return Some(Err(e)),
    };
    let n = block.len();
    if n > 29 && same_bytes(&block[0..29], XAP.as_slice()) {
        let inner = &block[29..n];
        let ghost tags = xmp(inner@).0;
        assert(inner@ == block@.subrange(29, n as int));
        let result = xmp::get(inner, metadata);
        proof {
            crate::lemma_pushed_view(metadata@, before, tags);
        }
        match result {
            Err(e) => Some(Err(e)),
            Ok(()) => Some(Ok(Ghost(tags))),
        }
    } else if n > 6 && same_bytes(&block[0..6], EXIF_HEADER.as_slice()) {
        let inner = &block[6..n];
        assert(inner@ == block@.subrange(6, n as int));
        let result = exif::read(inner, metadata, ratio);
        match result {
            None => None,
            Some(Err(e)) => Some(Err(e)),
            Some(Ok(())) => {
                let ghost tags = exif(inner@, f).unwrap().0;
                proof {
                    crate::lemma_pushed_view(metadata@, before, tags);
                }
                Some(Ok(Ghost(tags)))
            },
        }
    } else {
        assert(view_tags(before) + Seq::<(Seq<char>, Seq<char>)>::empty() =~= view_tags(before));
        Some(Ok(Ghost(Seq::empty())))
    }
}

/// Reads an APP13 segment's data: Photoshop resources that hold IPTC data.
/// `None` where a size in the file overflows
/// the reading's arithmetic.
fn read_app13(source: &mut Source, size: u16, metadata: &mut Vec<Tag>) -> (r: Option<Result<Ghost<Seq<(Seq<char>, Seq<char>)>>, Error>>)
    requires
        old(source).wf(),
    ensures
        final(source).wf(),
        final(source).data@ == old(source).data@,
        reports(r, app13(old(source).data@, old(source).position as int, size as int), old(metadata)@, final(metadata)@, final(source).position as int),
{
    let ghost before = metadata@;
    let block = match source.take(size as u64) {
        Ok(block) => block,
        Err(e) => return Some(Err(e)),
    };
    let n = block.len();
    if n > 14 && same_bytes(&block[0..14], PHOTOSHOP.as_slice()) {
        let inner = &block[14..n];
        assert(inner@ == block@.subrange(14, n as int));
        let result = iptc::read(inner, metadata);
        match result {
            None => None,
            Some(Err(e)) => Some(Err(e)),
            Some(Ok(())) => {
                let ghost tags = iptc(inner@).unwrap().0;
                proof {
                    crate::lemma_pushed_view(metadata@, before, tags);
                }
                Some(Ok(Ghost(tags)))
            },
        }
    } else {
        assert(view_tags(before) + Seq::<(Seq<char>, Seq<char>)>::empty() =~= view_tags(before));
        Some(Ok(Ghost(Seq::empty())))
    }
}

/// Reads the segment at the source's position, appending its tags; gives
/// the tags appended. `None` where a size in the file overflows
/// the reading's arithmetic.
fn read_segment<F: Fn(i64, i64) -> String>(source: &mut Source, metadata: &mut Vec<Tag>, ratio: &F) -> (r: Option<Result<Ghost<Seq<(Seq<char>, Seq<char>)>>, Error>>)
    requires
        old(source).wf(),
        old(source).position < old(source).data@.len(),
        renders(*ratio),
    ensures
        final(source).wf(),
        final(source).data@ == old(source).data@,
        reports(r, segment(old(source).data@, old(source).position as int, *ratio), old(metadata)@, final(metadata)@, final(source).position as int),
{
    reveal(segment);
    let ghost before = metadata@;
    assert(view_tags(before) + Seq::<(Seq<char>, Seq<char>)>::empty() =~= view_tags(before));
    let m0 = match Be::u8(source) {
        Ok(m) => m,
        Err(e) => return Some(Err(e)),
    };
    let m1 = match Be::u8(source) {
        Ok(m) => m,
        Err(e) => return Some(Err(e)),
    };
    if m0 != 0xFF {
        return Some(Err(Error::File));
    }
    if (0xD0 <= m1 && m1 <= 0xD7) || m1 == 0xDA {
        if let Err(e) = scan(source) {
            return Some(Err(e));
        }
        return Some(Ok(Ghost(Seq::empty())));
    }
    if m1 == 0xD8 || m1 == 0xD9 {
        return Some(Ok(Ghost(Seq::empty())));
    }
    let v = match Be::u16(source) {
        Ok(v) => v,
        Err(e) => return Some(Err(e)),
    };
    if v < 2 {
        return None;
    }
    let size: u16 = v - 2;
    if m1 == 0xE0 {
        read_jfif(source, size, metadata)
    } else if m1 == 0xE1 {
        read_app1(source, size, metadata, ratio)
    } else if m1 == 0xED {
        read_app13(source, size, metadata)
    } else {
        source.skip(size as u64);
        Some(Ok(Ghost(Seq::empty())))
    }
}

/// Reads the metadata of a JPEG file: a JFIF thumbnail, the XMP packet and
/// the EXIF block of APP1 segments and the IPTC data of APP13 segments.
/// Rational EXIF values are rendered by `ratio`.
pub fn get<F: Fn(i64, i64) -> String>(data: &[u8], ratio: &F) -> (r: Result<Vec<Tag>, Error>)
    requires
        renders(*ratio),
        jpeg(data@, *ratio) is Some,
    ensures
        match jpeg(data@, *ratio).unwrap() {
            Ok(tags) => r matches Ok(v) && view_tags(v@) == tags,
            Err(e) => r == Err::<Vec<Tag>, Error>(e),
        },
{
    match read(data, ratio) {
        Some(r) => r,
        None => Err(Error::File),
    }
}

/// Reads the metadata of a JPEG file as `get` does, on every file: `None`
/// where a size in the file overflows the
/// reading's arithmetic, which `get` leaves out.
pub fn read<F: Fn(i64, i64) -> String>(data: &[u8], ratio: &F) -> (r: Option<Result<Vec<Tag>, Error>>)
    requires
        renders(*ratio),
    ensures
        match jpeg(data@, *ratio) {
            None => r is None,
            Some(Ok(tags)) => r matches Some(Ok(v)) && view_tags(v@) == tags,
            Some(Err(e)) => r == Some(Err::<Vec<Tag>, Error>(e)),
        },
{
    let ghost d = data@;
    let ghost f = *ratio;
    let mut source = Source::new(data);
    let mut metadata: Vec<Tag> = Vec::new();
    assert(view_tags(metadata@) =~= Seq::<(Seq<char>, Seq<char>)>::empty());
    proof {
        lemma_then_empty(jpeg(d, f));
    }
    loop
        invariant
            source.wf(),
            source.data@ == d,
            d == data@,
            f == *ratio,
            renders(*ratio),
            jpeg(d, f) == then(view_tags(metadata@), segments(d, source.position as int, f)),
        decreases d.len() - source.position,
    {
        let ghost before = view_tags(metadata@);
        if source.at_end() {
            assert(before + Seq::<(Seq<char>, Seq<char>)>::empty() =~= before);
            return Some(Ok(metadata));
        }
        let start = source.position;
        let added = read_segment(&mut source, &mut metadata, ratio);
        match added {
            None => {
                return None;
            },
            Some(Err(e)) => {
                return Some(Err(e));
            },
            Some(Ok(g)) => {
                // A step that does not move the reading on ends it.
                if source.position <= start {
                    return None;
                }
                proof {
                    lemma_then_assoc(before, g@, segments(d, source.position as int, f));
                }
            },
        }
    }
}

/// A segment of tables and frame headers, kept with its length and data.
pub open spec fn is_table(m: u8) -> bool {
    (0xC0 <= m && m <= 0xCF) || (0xDB <= m && m <= 0xDF)
}

/// What removing metadata does with the segment at `p` (there is at least
/// a byte left): whether it is kept, and where the next segment starts; or
/// the error. `None` where a size in the file overflows the
/// arithmetic. Frame headers, tables,
/// scans with their data, restart markers and the start and end of the
/// image are kept; every other segment is dropped.
pub open spec fn cut(d: Seq<u8>, p: int) -> Option<Result<(bool, int), Error>> {
    let len = d.len() as int;
    if p + 2 > len || d[p] != 0xFF {
        Some(Err(Error::File))
    } else {
        let m = d[p + 1];
        let r = p + 2;
        if m == 0xD8 || m == 0xD9 {
            Some(Ok((true, r)))
        } else if 0xD0 <= m && m <= 0xD7 {
            match scan_end(d, r) {
                Err(e) => Some(Err(e)),
                Ok(i) => Some(Ok((true, i))),
            }
        } else if r + 2 > len {
            Some(Err(Error::File))
        } else {
            let v = be16(d[r], d[r + 1]);
            let end = if v > 2 { r + v } else { r + 2 };
            if is_table(m) {
                if end > len { Some(Err(Error::File)) } else { Some(Ok((true, end))) }
            } else if m == 0xDA {
                if end > len {
                    Some(Err(Error::File))
                } else {
                    match scan_end(d, end) {
                        Err(e) => Some(Err(e)),
                        Ok(i) => Some(Ok((true, i))),
                    }
                }
            } else if v < 2 {
                None
            } else {
                Some(Ok((false, seek(len, r + 2, v - 2))))
            }
        }
    }
}

/// The segments from `p` on that removing metadata keeps, each as it
/// stands, or the error. `None` where a size in the file overflows the
/// arithmetic.
pub open spec fn kept_segments(d: Seq<u8>, p: int) -> Option<Result<Seq<u8>, Error>>
    decreases d.len() - p,
{
    if p >= d.len() || p < 0 {
        Some(Ok(Seq::empty()))
    } else {
        match cut(d, p) {
            None => None,
            Some(Err(e)) => Some(Err(e)),
            Some(Ok((keep, e))) => if e <= p || e > d.len() {
                None
            } else if keep {
                match kept_segments(d, e) {
                    Some(Ok(rest)) => Some(Ok(d.subrange(p, e) + rest)),
                    other => other,
                }
            } else {
                kept_segments(d, e)
            },
        }
    }
}

/// Removing the metadata of a JPEG file: the segments kept, or the error.
/// `None` where a size in the file overflows the
/// arithmetic.
pub open spec fn jpeg_delete(d: Seq<u8>) -> Option<Result<Seq<u8>, Error>> {
    kept_segments(d, 0)
}

/// Moves over the segment at the source's position; tells whether removing
/// metadata keeps it. `None` where a size in the file overflows the
/// arithmetic.
fn cut_segment(source: &mut Source) -> (r: Option<Result<bool, Error>>)
    requires
        old(source).wf(),
        old(source).position < old(source).data@.len(),
    ensures
        final(source).wf(),
        final(source).data@ == old(source).data@,
        match cut(old(source).data@, old(source).position as int) {
            None => r is None,
            Some(Err(e)) => r == Some(Err::<bool, Error>(e)),
            Some(Ok((keep, next))) => r == Some(Ok::<bool, Error>(keep)) && final(source).position == next,
        },
{
    let m0 = match Be::u8(source) {
        Ok(m) => m,
        Err(e) => return Some(Err(e)),
    };
    let m1 = match Be::u8(source) {
        Ok(m) => m,
        Err(e) => return Some(Err(e)),
    };
    if m0 != 0xFF {
        return Some(Err(Error::File));
    }
    if m1 == 0xD8 || m1 == 0xD9 {
        return Some(Ok(true));
    }
    if 0xD0 <= m1 && m1 <= 0xD7 {
        if let Err(e) = scan(source) {
            return Some(Err(e));
        }
        return Some(Ok(true));
    }
    let v = match Be::u16(source) {
        Ok(v) => v,
        Err(e) => return Some(Err(e)),
    };
    if (0xC0 <= m1 && m1 <= 0xCF) || (0xDB <= m1 && m1 <= 0xDF) {
        if v > 2 {
            if let Err(e) = source.take(v as u64 - 2) {
                return Some(Err(e));
            }
        }
        Some(Ok(true))
    } else if m1 == 0xDA {
        if v > 2 {
            if let Err(e) = source.take(v as u64 - 2) {
                return Some(Err(e));
            }
        }
        if let Err(e) = scan(source) {
            return Some(Err(e));
        }
        Some(Ok(true))
    } else if v < 2 {
        None
    } else {
        source.skip(v as u64 - 2);
        Some(Ok(false))
    }
}

/// Removes the metadata of a JPEG file: keeps the segments that make the
/// image, drops every other one.
pub fn delete(data: &[u8]) -> (r: Result<Vec<u8>, Error>)
    requires
        jpeg_delete(data@) is Some,
    ensures
        match jpeg_delete(data@).unwrap() {
            Ok(o) => r matches Ok(v) && v@ == o,
            Err(e) => r == Err::<Vec<u8>, Error>(e),
        },
{
    match remove(data) {
        Some(r) => r,
        None => Err(Error::File),
    }
}

/// Removes the metadata of a JPEG file as `delete` does, on every file:
/// `None` where a size in the file overflows
/// the removal's arithmetic, which `delete` leaves out.
pub fn remove(data: &[u8]) -> (r: Option<Result<Vec<u8>, Error>>)
    ensures
        match jpeg_delete(data@) {
            None => r is None,
            Some(Ok(o)) => r matches Some(Ok(v)) && v@ == o,
            Some(Err(e)) => r == Some(Err::<Vec<u8>, Error>(e)),
        },
{
    let ghost d = data@;
    let mut out: Vec<u8> = Vec::new();
    let mut source = Source::new(data);
    proof {
        match kept_segments(d, 0) {
            Some(Ok(rest)) => {
                assert(out@ + rest =~= rest);
            },
            _ => {},
        }
    }
    loop
        invariant
            source.wf(),
            source.data@ == d,
            d == data@,
            jpeg_delete(d) == match kept_segments(d, source.position as int) {
                Some(Ok(rest)) => Some(Ok(out@ + rest)),
                other => other,
            },
        decreases d.len() - source.position,
    {
        let p = source.position;
        if source.at_end() {
            assert(out@ + Seq::<u8>::empty() =~= out@);
            return Some(Ok(out));
        }
        let keep = match cut_segment(&mut source) {
            None => return None,
            Some(Err(e)) => return Some(Err(e)),
            Some(Ok(keep)) => keep,
        };
        let e = source.position;
        // A step that does not move the removal on ends it.
        if e <= p {
            return None;
        }
        if keep {
            let ghost before = out@;
            out.extend_from_slice(&data[p..e]);
            proof {
                match kept_segments(d, e as int) {
                    Some(Ok(rest)) => {
                        assert(before + (d.subrange(p as int, e as int) + rest) =~= out@ + rest);
                    },
                    _ => {},
                }
            }
        }
    }
}

/// Where entropy-coded data ends, there is a marker.
proof fn lemma_scan_bounds(d: Seq<u8>, s: int)
    requires
        scan_end(d, s) is Ok,
    ensures
        s <= scan_end(d, s)->Ok_0,
        scan_end(d, s)->Ok_0 + 1 < d.len(),
        d[scan_end(d, s)->Ok_0] == 0xFF,
        d[scan_end(d, s)->Ok_0 + 1] != 0,
    decreases d.len() - s,
{
    if d[s] != 0xFF {
        lemma_scan_bounds(d, s + 1);
    } else if d[s + 1] == 0 {
        lemma_scan_bounds(d, s + 2);
    }
}

/// Entropy-coded data copied elsewhere ends at the same place, relative to
/// its start, where the copy is followed by a marker; a copy that ends the
/// file is cut short.
proof fn lemma_scan_copy(d: Seq<u8>, s: int, o: Seq<u8>, t: int)
    requires
        0 <= s,
        0 <= t,
        scan_end(d, s) is Ok,
        t + (scan_end(d, s)->Ok_0 - s) <= o.len(),
        forall|k: int| s <= k < scan_end(d, s)->Ok_0 ==> #[trigger] d[k] == o[t + (k - s)],
    ensures
        ({
            let e = t + (scan_end(d, s)->Ok_0 - s);
            &&& (e + 2 <= o.len() && o[e] == 0xFF && o[e + 1] != 0) ==> scan_end(o, t) == Ok::<int, Error>(e)
            &&& e == o.len() ==> scan_end(o, t) == Err::<int, Error>(Error::File)
        }),
    decreases d.len() - s,
{
    let i = scan_end(d, s)->Ok_0;
    lemma_scan_bounds(d, s);
    if d[s] != 0xFF {
        assert(o[t] == d[s]);
        assert forall|k: int| s + 1 <= k < i implies #[trigger] d[k] == o[(t + 1) + (k - (s + 1))] by {
            assert(d[k] == o[t + (k - s)]);
        }
        lemma_scan_copy(d, s + 1, o, t + 1);
    } else if d[s + 1] != 0 {
    } else {
        lemma_scan_bounds(d, s + 2);
        assert(o[t] == d[s]);
        assert(o[t + 1] == d[s + 1]);
        assert forall|k: int| s + 2 <= k < i implies #[trigger] d[k] == o[(t + 2) + (k - (s + 2))] by {
            assert(d[k] == o[t + (k - s)]);
        }
        lemma_scan_copy(d, s + 2, o, t + 2);
    }
}

/// A segment that removing metadata keeps, copied elsewhere, is cut the
/// same way where the copy is followed by a marker; a copy that ends the
/// file is kept whole or found cut short.
proof fn lemma_cut_copy(d: Seq<u8>, p: int, o: Seq<u8>, q: int)
    requires
        0 <= p < d.len(),
        0 <= q,
        cut(d, p) matches Some(Ok((true, e))) && p < e <= d.len() && q + (e - p) <= o.len()
            && forall|k: int| p <= k < e ==> #[trigger] d[k] == o[q + (k - p)],
    ensures
        ({
            let e = q + (cut(d, p)->Some_0->Ok_0.1 - p);
            &&& (e + 2 <= o.len() && o[e] == 0xFF && o[e + 1] != 0) ==> cut(o, q) == Some(Ok::<(bool, int), Error>((true, e)))
            &&& e == o.len() ==> (cut(o, q) == Some(Ok::<(bool, int), Error>((true, e))) || cut(o, q) == Some(Err::<(bool, int), Error>(Error::File)))
        }),
{
    let e = cut(d, p)->Some_0->Ok_0.1;
    let m = d[p + 1];
    let r = p + 2;
    if m == 0xD8 || m == 0xD9 {
        assert(o[q] == d[p] && o[q + 1] == d[p + 1]);
    } else if 0xD0 <= m && m <= 0xD7 {
        lemma_scan_bounds(d, r);
        assert(o[q] == d[p] && o[q + 1] == d[p + 1]);
        assert forall|k: int| r <= k < e implies #[trigger] d[k] == o[(q + 2) + (k - r)] by {
            assert(d[k] == o[q + (k - p)]);
        }
        lemma_scan_copy(d, r, o, q + 2);
    } else {
        let v = be16(d[r], d[r + 1]);
        let end = if v > 2 { r + v } else { r + 2 };
        if m == 0xDA {
            lemma_scan_bounds(d, end);
        }
        assert(o[q] == d[p] && o[q + 1] == d[p + 1]);
        assert(o[q + 2] == d[r] && o[q + 3] == d[r + 1]);
        if m == 0xDA {
            assert forall|k: int| end <= k < e implies #[trigger] d[k] == o[(q + (end - p)) + (k - end)] by {
                assert(d[k] == o[q + (k - p)]);
            }
            lemma_scan_copy(d, end, o, q + (end - p));
        }
    }
}

/// What removing metadata keeps is a run of kept segments, each of them
/// starting with a marker.
pub(crate) proof fn lemma_kept_head(d: Seq<u8>, p: int)
    requires
        kept_segments(d, p) matches Some(Ok(rest)) && rest.len() > 0,
    ensures
        ({
            let rest = kept_segments(d, p)->Some_0->Ok_0;
            rest.len() >= 2 && rest[0] == 0xFF && rest[1] != 0
        }),
    decreases d.len() - p,
{
    let (keep, e) = cut(d, p)->Some_0->Ok_0;
    if keep {
        let rest = kept_segments(d, p)->Some_0->Ok_0;
        assert(rest[0] == d.subrange(p, e)[0]);
        assert(rest[1] == d.subrange(p, e)[1]);
    } else {
        lemma_kept_head(d, e);
    }
}

/// Removing metadata again from what it kept, behind any prefix, keeps it
/// all, or finds it cut short.
#[verifier::spinoff_prover]
#[verifier::rlimit(30)]
proof fn lemma_kept_again(d: Seq<u8>, p: int, a: Seq<u8>)
    requires
        kept_segments(d, p) is Some,
        kept_segments(d, p).unwrap() is Ok,
    ensures
        ({
            let rest = kept_segments(d, p).unwrap().unwrap();
            let again = kept_segments(a + rest, a.len() as int);
            again == Some(Ok::<Seq<u8>, Error>(rest)) || again == Some(Err::<Seq<u8>, Error>(Error::File))
        }),
    decreases d.len() - p,
{
    let rest = kept_segments(d, p).unwrap().unwrap();
    if p >= d.len() || p < 0 {
        assert(a + rest =~= a);
    } else {
        let (keep, e) = cut(d, p)->Some_0->Ok_0;
        if keep {
            let w = d.subrange(p, e);
            let rest2 = kept_segments(d, e).unwrap().unwrap();
            lemma_kept_again(d, e, a + w);
            let o = a + rest;
            let q = a.len() as int;
            let e2 = q + (e - p);
            assert(o =~= (a + w) + rest2);
            assert(o.subrange(q, e2) =~= w);
            assert(o.subrange(e2, o.len() as int) =~= rest2);
            assert forall|k: int| p <= k < e implies #[trigger] d[k] == o[q + (k - p)] by {
                assert(o.subrange(q, e2)[k - p] == w[k - p]);
            }
            if rest2.len() > 0 {
                lemma_kept_head(d, e);
                assert(o[e2] == rest2[0] && o[e2 + 1] == rest2[1]);
            }
            lemma_cut_copy(d, p, o, q);
        } else {
            lemma_kept_again(d, e, a);
        }
    }
}

/// Removing the metadata of a JPEG file a second time changes nothing,
/// unless what the first left ends inside image data, which is then found
/// cut short.
pub proof fn lemma_delete_idempotent(d: Seq<u8>, o: Seq<u8>)
    requires
        jpeg_delete(d) == Some(Ok::<Seq<u8>, Error>(o)),
    ensures
        jpeg_delete(o) == Some(Ok::<Seq<u8>, Error>(o)) || jpeg_delete(o) == Some(Err::<Seq<u8>, Error>(Error::File)),
{
    lemma_kept_again(d, 0, Seq::empty());
    assert(Seq::<u8>::empty() + o =~= o);
}

/// Where the data of a start-of-scan segment at `p` begins: after its
/// marker and its header.
pub open spec fn scan_start(d: Seq<u8>, p: int) -> int {
    let r = p + 2;
    let v = be16(d[r], d[r + 1]);
    if v > 2 { r + v } else { r + 2 }
}

/// No byte 0xFF between `from` and `to` starts a marker: each is followed
/// by a zero byte.
pub open spec fn no_marker_in(d: Seq<u8>, from: int, to: int) -> bool {
    forall|j: int| from <= j < to && #[trigger] d[j] == 0xFF ==> j + 1 < d.len() && d[j + 1] == 0
}

/// In every start-of-scan segment from `p` on that removing metadata keeps,
/// no byte of the header reads as the start of a marker.
pub open spec fn plain_scan_headers(d: Seq<u8>, p: int) -> bool
    decreases d.len() - p,
{
    if p >= d.len() || p < 0 {
        true
    } else {
        match cut(d, p) {
            Some(Ok((keep, e))) => if e <= p || e > d.len() {
                true
            } else {
                &&& (keep && d[p + 1] == 0xDA) ==> no_marker_in(d, p + 2, scan_start(d, p))
                &&& plain_scan_headers(d, e)
            },
            _ => true,
        }
    }
}

/// Scanning entropy-coded data from a point before it, over bytes none of
/// which starts a marker, ends where scanning from its start ends.
proof fn lemma_scan_from_header(o: Seq<u8>, s: int, end: int)
    requires
        0 <= s <= end,
        no_marker_in(o, s, end),
    ensures
        scan_end(o, s) == scan_end(o, end),
    decreases end - s,
{
    if s < end {
        if s >= o.len() {
        } else if o[s] != 0xFF {
            lemma_scan_from_header(o, s + 1, end);
        } else if s + 2 <= end {
            lemma_scan_from_header(o, s + 2, end);
        } else {
            assert(o[end] == 0);
        }
    }
}

/// A kept start-of-scan header whose bytes read as no marker reads as no
/// marker where it was copied.
proof fn lemma_header_copy(d: Seq<u8>, p: int, o: Seq<u8>, q: int)
    requires
        0 <= p < d.len(),
        0 <= q,
        d[p + 1] == 0xDA,
        no_marker_in(d, p + 2, scan_start(d, p)),
        cut(d, p) matches Some(Ok((true, e))) && p < e <= d.len() && q + (e - p) <= o.len()
            && forall|k: int| p <= k < e ==> #[trigger] d[k] == o[q + (k - p)],
    ensures
        no_marker_in(o, q + 2, q + (scan_start(d, p) - p)),
{
    let e = cut(d, p)->Some_0->Ok_0.1;
    let end = scan_start(d, p);
    lemma_scan_bounds(d, end);
    assert forall|j: int| q + 2 <= j < q + (end - p) && #[trigger] o[j] == 0xFF implies j + 1 < o.len() && o[j + 1] == 0 by {
        let i = p + (j - q);
        assert(d[i] == o[q + (i - p)]);
        assert(d[i + 1] == 0);
        assert(i + 1 < e) by {
            if i + 1 == end {
                lemma_scan_bounds(d, end + 1);
            }
        }
        assert(d[i + 1] == o[q + (i + 1 - p)]);
    }
}

/// A kept segment, copied elsewhere, reads as no tag: where the copy is
/// followed by a marker, reading goes on after it; a copy that ends the
/// file is read whole or found cut short. Unless a size overflows the reading's arithmetic.
proof fn lemma_segment_copy<F: Fn(i64, i64) -> String>(d: Seq<u8>, p: int, o: Seq<u8>, q: int, f: F)
    requires
        0 <= p < d.len(),
        0 <= q,
        d[p + 1] == 0xDA ==> no_marker_in(d, p + 2, scan_start(d, p)),
        cut(d, p) matches Some(Ok((true, e))) && p < e <= d.len() && q + (e - p) <= o.len()
            && forall|k: int| p <= k < e ==> #[trigger] d[k] == o[q + (k - p)],
    ensures
        ({
            let e = q + (cut(d, p)->Some_0->Ok_0.1 - p);
            let empty = Seq::<(Seq<char>, Seq<char>)>::empty();
            &&& (e + 2 <= o.len() && o[e] == 0xFF && o[e + 1] != 0) ==> (segment(o, q, f) is None
                || segment(o, q, f) == Some(Ok::<(Seq<(Seq<char>, Seq<char>)>, int), Error>((empty, e))))
            &&& e == o.len() ==> (segment(o, q, f) is None
                || segment(o, q, f) == Some(Ok::<(Seq<(Seq<char>, Seq<char>)>, int), Error>((empty, e)))
                || segment(o, q, f) == Some(Err::<(Seq<(Seq<char>, Seq<char>)>, int), Error>(Error::File)))
        }),
{
    reveal(segment);
    let e = cut(d, p)->Some_0->Ok_0.1;
    let m = d[p + 1];
    let r = p + 2;
    if m == 0xD8 || m == 0xD9 {
        assert(o[q] == d[p] && o[q + 1] == d[p + 1]);
    } else if 0xD0 <= m && m <= 0xD7 {
        lemma_scan_bounds(d, r);
        assert(o[q] == d[p] && o[q + 1] == d[p + 1]);
        assert forall|k: int| r <= k < e implies #[trigger] d[k] == o[(q + 2) + (k - r)] by {
            assert(d[k] == o[q + (k - p)]);
        }
        lemma_scan_copy(d, r, o, q + 2);
    } else {
        let end = scan_start(d, p);
        if m == 0xDA {
            lemma_scan_bounds(d, end);
        }
        assert(o[q] == d[p] && o[q + 1] == d[p + 1]);
        assert(o[q + 2] == d[r] && o[q + 3] == d[r + 1]);
        if m == 0xDA {
            let end2 = q + (end - p);
            assert forall|k: int| end <= k < e implies #[trigger] d[k] == o[end2 + (k - end)] by {
                assert(d[k] == o[q + (k - p)]);
            }
            lemma_scan_copy(d, end, o, end2);
            lemma_header_copy(d, p, o, q);
            lemma_scan_from_header(o, q + 2, end2);
        }
    }
}

/// Reading metadata from what removing metadata kept, behind any prefix,
/// finds no tag: it reads nothing, or finds the image data cut short, or
/// meets a size that overflows its arithmetic.
#[verifier::spinoff_prover]
#[verifier::rlimit(30)]
proof fn lemma_read_kept<F: Fn(i64, i64) -> String>(d: Seq<u8>, p: int, a: Seq<u8>, f: F)
    requires
        kept_segments(d, p) is Some,
        kept_segments(d, p).unwrap() is Ok,
        plain_scan_headers(d, p),
    ensures
        ({
            let x = segments(a + kept_segments(d, p).unwrap().unwrap(), a.len() as int, f);
            x is None || x == Some(Ok::<Seq<(Seq<char>, Seq<char>)>, Error>(Seq::empty()))
                || x == Some(Err::<Seq<(Seq<char>, Seq<char>)>, Error>(Error::File))
        }),
    decreases d.len() - p,
{
    let rest = kept_segments(d, p).unwrap().unwrap();
    if p >= d.len() || p < 0 {
        assert(a + rest =~= a);
    } else {
        let (keep, e) = cut(d, p)->Some_0->Ok_0;
        if keep {
            let w = d.subrange(p, e);
            let rest2 = kept_segments(d, e).unwrap().unwrap();
            lemma_read_kept(d, e, a + w, f);
            let o = a + rest;
            let q = a.len() as int;
            let e2 = q + (e - p);
            assert(o =~= (a + w) + rest2);
            assert(o.subrange(q, e2) =~= w);
            assert(o.subrange(e2, o.len() as int) =~= rest2);
            assert forall|k: int| p <= k < e implies #[trigger] d[k] == o[q + (k - p)] by {
                assert(o.subrange(q, e2)[k - p] == w[k - p]);
            }
            if rest2.len() > 0 {
                lemma_kept_head(d, e);
                assert(o[e2] == rest2[0] && o[e2 + 1] == rest2[1]);
            }
            lemma_segment_copy(d, p, o, q, f);
            let empty = Seq::<(Seq<char>, Seq<char>)>::empty();
            assert(empty + empty =~= empty);
        } else {
            lemma_read_kept(d, e, a, f);
        }
    }
}

/// A JPEG file whose metadata was removed carries no metadata: reading it
/// gives no tag, or finds its image data cut short where what removing
/// metadata left ends inside image data. This holds wherever no size in
/// the file overflows the reading's arithmetic and no start-of-scan header that was kept holds a byte
/// that reads as a marker.
pub proof fn lemma_delete_leaves_nothing<F: Fn(i64, i64) -> String>(d: Seq<u8>, o: Seq<u8>, f: F)
    requires
        jpeg_delete(d) == Some(Ok::<Seq<u8>, Error>(o)),
        plain_scan_headers(d, 0),
        jpeg(o, f) is Some,
    ensures
        jpeg(o, f) == Some(Ok::<Seq<(Seq<char>, Seq<char>)>, Error>(Seq::empty()))
            || jpeg(o, f) == Some(Err::<Seq<(Seq<char>, Seq<char>)>, Error>(Error::File)),
{
    lemma_read_kept(d, 0, Seq::empty(), f);
    assert(Seq::<u8>::empty() + o =~= o);
}

} // verus!
