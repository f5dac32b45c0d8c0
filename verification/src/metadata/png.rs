use crate::{
    Error, Tag, renders, view_tags, push_tag,
    metadata::{exif::{self, exif}, xmp::{self, xmp}},
    text::{empty, lossy, owned, utf8_lossy, utf8_text},
    utilities::{
        bytes::be32,
        stream::{Be, Bytes, Source, is_first_zero, read_until_zero, seek, zero_from},
    },
};
use vstd::prelude::*;

verus! {

/// What encoding_rs's `WINDOWS_1252.decode` makes of some bytes.
pub uninterp spec fn windows_1252(bytes: Seq<u8>) -> Seq<char>;

/// Decodes text as Windows-1252 with encoding_rs (`Encoding::decode`).
/// The contract names the result, a function of the bytes.
#[verifier::external_body]
fn decode_windows_1252(bytes: &[u8]) -> (r: String)
    ensures
        r@ == windows_1252(bytes@),
{
    encoding_rs::WINDOWS_1252.decode(bytes).0.into_owned()
}

/// What flate2's `ZlibDecoder` gives when read to the end over some bytes:
/// the inflated bytes, or nothing where it fails.
pub uninterp spec fn zlib_inflate(bytes: Seq<u8>) -> Option<Seq<u8>>;

/// Inflates a zlib stream with flate2's `ZlibDecoder` and `read_to_end`.
/// The contract names the result, a function of the bytes.
#[verifier::external_body]
fn inflate(bytes: &[u8]) -> (r: Option<Vec<u8>>)
    ensures
        match r {
            Some(v) => zlib_inflate(bytes@) == Some(v@),
            None => zlib_inflate(bytes@) is None,
        },
{
    let mut decoder = flate2::read::ZlibDecoder::new(bytes);
    let mut out = Vec::new();
    match std::io::Read::read_to_end(&mut decoder, &mut out) {
        Ok(_) => Some(out),
        Err(_) => None,
    }
}

/// The keyword of an iTXt chunk that holds an XMP packet.
pub const XMP_KEYWORD: &'static str = "XML:com.adobe.xmp";

/// An international text chunk (iTXt) whose data starts at `r`: its
/// keyword, its text and where its data ends. `None` where the declared
/// size is smaller than the header read.
pub open spec fn itxt(d: Seq<u8>, r: int, size: int) -> Option<Result<(Seq<char>, Seq<char>, int), Error>> {
    match zero_from(d, r) {
        None => Some(Err(Error::File)),
        Some(z) => if z + 3 > d.len() {
            Some(Err(Error::File))
        } else {
            let compressed = d[z + 1] == 1;
            let zlib = d[z + 2] == 0;
            match zero_from(d, z + 3) {
                None => Some(Err(Error::File)),
                Some(z2) => match zero_from(d, z2 + 1) {
                    None => Some(Err(Error::File)),
                    Some(z3) => {
                        let used = z3 + 1 - r;
                        if used > size {
                            None
                        } else if z3 + 1 + (size - used) > d.len() {
                            Some(Err(Error::File))
                        } else {
                            let value = d.subrange(z3 + 1, z3 + 1 + (size - used));
                            let text = if compressed {
                                if zlib {
                                    match zlib_inflate(value) {
                                        Some(v) => utf8_text(v),
                                        None => Seq::empty(),
                                    }
                                } else {
                                    Seq::empty()
                                }
                            } else {
                                utf8_text(value)
                            };
                            Some(Ok((utf8_lossy(d.subrange(r, z)), text, z3 + 1 + (size - used))))
                        }
                    },
                },
            }
        },
    }
}

/// The text of an iTXt chunk that is not compressed is its bytes decoded as
/// UTF-8: where they are well-formed UTF-8, the text encodes back to
/// exactly those bytes. Its parts: the keyword up to the zero byte at `z`,
/// the compression flag and method, the language tag up to the zero at
/// `z2` and the translated keyword up to the zero at `z3`; the text runs
/// from there to where the chunk's data ends.
pub proof fn lemma_itxt_utf8(d: Seq<u8>, r: int, size: int, z: int, z2: int, z3: int)
    requires
        zero_from(d, r) == Some(z),
        z + 3 <= d.len(),
        d[z + 1] != 1,
        zero_from(d, z + 3) == Some(z2),
        zero_from(d, z2 + 1) == Some(z3),
    ensures
        itxt(d, r, size) matches Some(Ok((_, text, q))) ==> z3 + 1 <= q <= d.len() && (
            vstd::utf8::valid_utf8(d.subrange(z3 + 1, q)) ==> vstd::utf8::encode_utf8(text) == d.subrange(z3 + 1, q)),
{
    match itxt(d, r, size) {
        Some(Ok((_, text, q))) => {
            if vstd::utf8::valid_utf8(d.subrange(z3 + 1, q)) {
                vstd::utf8::decode_utf8_encode_utf8(d.subrange(z3 + 1, q));
            }
        },
        _ => {},
    }
}

/// A Latin-1 text chunk (tEXt) whose data starts at `r`.
pub open spec fn text_chunk(d: Seq<u8>, r: int, size: int) -> Option<Result<(Seq<char>, Seq<char>, int), Error>> {
    match zero_from(d, r) {
        None => Some(Err(Error::File)),
        Some(z) => {
            if size < z - r + 1 {
                None
            } else {
                let n = size - (z - r) - 1;
                if z + 1 + n > d.len() {
                    Some(Err(Error::File))
                } else {
                    Some(Ok((utf8_lossy(d.subrange(r, z)), windows_1252(d.subrange(z + 1, z + 1 + n)), z + 1 + n)))
                }
            }
        },
    }
}

/// A compressed text chunk (zTXt) whose data starts at `r`. One byte more
/// than the compressed text is read as such, the chunk's CRC included.
pub open spec fn ztxt(d: Seq<u8>, r: int, size: int) -> Option<Result<(Seq<char>, Seq<char>, int), Error>> {
    match zero_from(d, r) {
        None => Some(Err(Error::File)),
        Some(z) => {
            if z + 2 > d.len() {
                Some(Err(Error::File))
            } else if size < z - r + 1 {
                None
            } else {
                let n = size - (z - r) - 1;
                if z + 2 + n > d.len() {
                    Some(Err(Error::File))
                } else {
                    let text = if d[z + 1] == 0 {
                        match zlib_inflate(d.subrange(z + 2, z + 2 + n)) {
                            Some(v) => windows_1252(v),
                            None => Seq::empty(),
                        }
                    } else {
                        Seq::empty()
                    };
                    Some(Ok((utf8_lossy(d.subrange(r, z)), text, z + 2 + n)))
                }
            }
        },
    }
}

/// The chunk name at `q`, four bytes.
pub open spec fn name_is(d: Seq<u8>, q: int, a: u8, b: u8, c: u8, e: u8) -> bool {
    d[q] == a && d[q + 1] == b && d[q + 2] == c && d[q + 3] == e
}

/// Tags in front of the outcome of the rest of a reading.
pub open spec fn then(tags: Seq<(Seq<char>, Seq<char>)>, rest: Option<Result<Seq<(Seq<char>, Seq<char>)>, Error>>) -> Option<Result<Seq<(Seq<char>, Seq<char>)>, Error>> {
    match rest {
        None => None,
        Some(Err(e)) => Some(Err(e)),
        Some(Ok(more)) => Some(Ok(tags + more)),
    }
}

/// What a text chunk gives: its tag, or the tags of the XMP packet it
/// holds, and where the next chunk starts.
pub open spec fn text_step(d: Seq<u8>, chunk: Option<Result<(Seq<char>, Seq<char>, int), Error>>, is_itxt: bool) -> Option<Result<(Seq<(Seq<char>, Seq<char>)>, int), Error>> {
    match chunk {
        None => None,
        Some(Err(e)) => Some(Err(e)),
        Some(Ok((name, value, q))) => {
            if is_itxt && name == XMP_KEYWORD@ {
                let (tags, res) = xmp(vstd::utf8::encode_utf8(value));
                match res {
                    Err(e) => Some(Err(e)),
                    Ok(()) => Some(Ok((tags, seek(d.len() as int, q, 4)))),
                }
            } else {
                Some(Ok((seq![(name, value)], seek(d.len() as int, q, 4))))
            }
        },
    }
}

/// Reading the chunk at `p` (there is at least a byte left): the tags it
/// gives and where the next chunk starts, or the error. `None` where a
/// size in the file overflows the reading's arithmetic.
#[verifier::opaque]
pub open spec fn step<F: Fn(i64, i64) -> String>(d: Seq<u8>, p: int, f: F) -> Option<Result<(Seq<(Seq<char>, Seq<char>)>, int), Error>> {
    if p + 8 > d.len() {
        Some(Err(Error::File))
    } else {
        let size = be32(d[p], d[p + 1], d[p + 2], d[p + 3]);
        let r = p + 8;
        if name_is(d, p + 4, 0x65, 0x58, 0x49, 0x66) {
            if r + size > d.len() {
                Some(Err(Error::File))
            } else {
                match exif(d.subrange(r, r + size), f) {
                    None => None,
                    Some((_, Err(e))) => Some(Err(e)),
                    Some((tags, Ok(()))) => Some(Ok((tags, seek(d.len() as int, r + size, 4)))),
                }
            }
        } else if name_is(d, p + 4, 0x69, 0x54, 0x58, 0x74) {
            text_step(d, itxt(d, r, size), true)
        } else if name_is(d, p + 4, 0x74, 0x45, 0x58, 0x74) {
            text_step(d, text_chunk(d, r, size), false)
        } else if name_is(d, p + 4, 0x7A, 0x54, 0x58, 0x74) {
            text_step(d, ztxt(d, r, size), false)
        } else if size + 4 > u32::MAX {
            None
        } else {
            Some(Ok((Seq::empty(), seek(d.len() as int, r, size + 4))))
        }
    }
}

/// Reading the chunks of a PNG file from position `p`: the tags, or the
/// error. `None` where a size in the file overflows the
/// reading's arithmetic.
pub open spec fn chunks<F: Fn(i64, i64) -> String>(d: Seq<u8>, p: int, f: F) -> Option<Result<Seq<(Seq<char>, Seq<char>)>, Error>>
    decreases d.len() - p,
{
    if p >= d.len() || p < 0 {
        Some(Ok(Seq::empty()))
    } else {
        match step(d, p, f) {
            None => None,
            Some(Err(e)) => Some(Err(e)),
            Some(Ok((tags, q))) => if q <= p || q > d.len() {
                None
            } else {
                then(tags, chunks(d, q, f))
            },
        }
    }
}

/// Reading goes from each chunk that fits in the file to the next one,
/// after its data and CRC: the tags of the chunks from `p` on are the tags
/// of an EXIF chunk at `p`, or none for a chunk that is neither EXIF nor
/// text, followed by the tags of the chunks after it.
pub proof fn lemma_chunk_then_rest<F: Fn(i64, i64) -> String>(d: Seq<u8>, p: int, f: F)
    requires
        0 <= p,
        p + 8 <= d.len(),
        p + 12 + be32(d[p], d[p + 1], d[p + 2], d[p + 3]) <= d.len(),
        be32(d[p], d[p + 1], d[p + 2], d[p + 3]) + 4 <= u32::MAX,
    ensures
        ({
            let size = be32(d[p], d[p + 1], d[p + 2], d[p + 3]);
            let end = p + 12 + size;
            &&& name_is(d, p + 4, 0x65, 0x58, 0x49, 0x66) ==> (exif(d.subrange(p + 8, p + 8 + size), f) matches Some((tags, Ok(())))
                ==> chunks(d, p, f) == then(tags, chunks(d, end, f)))
            &&& !name_is(d, p + 4, 0x65, 0x58, 0x49, 0x66) && !name_is(d, p + 4, 0x69, 0x54, 0x58, 0x74)
                && !name_is(d, p + 4, 0x74, 0x45, 0x58, 0x74) && !name_is(d, p + 4, 0x7A, 0x54, 0x58, 0x74)
                ==> chunks(d, p, f) == chunks(d, end, f)
        }),
{
    reveal(step);
    let size = be32(d[p], d[p + 1], d[p + 2], d[p + 3]);
    let end = p + 12 + size;
    match chunks(d, end, f) {
        Some(Ok(m)) => {
            assert(Seq::<(Seq<char>, Seq<char>)>::empty() + m =~= m);
        },
        _ => {},
    }
}

/// Reading a PNG file: the tags of its EXIF, XMP and text chunks, or the
/// error. `None` where a size in the file overflows the
/// reading's arithmetic.
pub open spec fn png<F: Fn(i64, i64) -> String>(d: Seq<u8>, f: F) -> Option<Result<Seq<(Seq<char>, Seq<char>)>, Error>> {
    chunks(d, seek(d.len() as int, 0, 8), f)
}

/// The tags before a reading and what the rest of it gives.
pub proof fn lemma_then_assoc(a: Seq<(Seq<char>, Seq<char>)>, b: Seq<(Seq<char>, Seq<char>)>, x: Option<Result<Seq<(Seq<char>, Seq<char>)>, Error>>)
    ensures
        then(a, then(b, x)) == then(a + b, x),
{
    match x {
        Some(Ok(m)) => {
            assert(a + (b + m) =~= (a + b) + m);
        },
        _ => {},
    }
}

/// What a reading of a text chunk's data did: the outcome `outcome`
/// stands for `r` and the position reached.
pub open spec fn read_as(r: Option<Result<(String, String), Error>>, outcome: Option<Result<(Seq<char>, Seq<char>, int), Error>>, position: int) -> bool {
    match outcome {
        None => r is None,
        Some(Err(e)) => r == Some(Err::<(String, String), Error>(e)),
        Some(Ok((n, v, q))) => r matches Some(Ok((a, b))) && a@ == n && b@ == v && position == q,
    }
}

/// Reads an iTXt chunk's data: keyword and text. `None` where the declared
/// size is smaller than the header read.
fn read_itxt(source: &mut Source, size: u32) -> (r: Option<Result<(String, String), Error>>)
    requires
        old(source).wf(),
    ensures
        final(source).wf(),
        final(source).data@ == old(source).data@,
        read_as(r, itxt(old(source).data@, old(source).position as int, size as int), final(source).position as int),
{
    let start = source.position;
    let name = match read_until_zero(source) {
        Ok(name) => name,
        Err(e) => return Some(Err(e)),
    };
    let compressed = match Be::u8(source) {
        Ok(b) => b == 1,
        Err(e) => return Some(Err(e)),
    };
    let zlib = match Be::u8(source) {
        Ok(b) => b == 0,
        Err(e) => return Some(Err(e)),
    };
    if let Err(e) = read_until_zero(source) {
        return Some(Err(e));
    }
    if let Err(e) = read_until_zero(source) {
        return Some(Err(e));
    }
    let used = (source.position - start) as u64;
    if used > size as u64 {
        return None;
    }
    let left = size as u64 - used;
    let value = match source.take(left) {
        Ok(value) => value,
        Err(e) => return Some(Err(e)),
    };
    let name = lossy(name.as_slice());
    let text = if compressed {
        if zlib {
            match inflate(value) {
                Some(v) => lossy(v.as_slice()),
                None => empty(),
            }
        } else {
            empty()
        }
    } else {
        lossy(value)
    };
    Some(Ok((name, text)))
}

/// Reads a tEXt chunk's data: keyword and text. `None` where the declared
/// size is smaller than the keyword.
fn read_text(source: &mut Source, size: u32) -> (r: Option<Result<(String, String), Error>>)
    requires
        old(source).wf(),
    ensures
        final(source).wf(),
        final(source).data@ == old(source).data@,
        read_as(r, text_chunk(old(source).data@, old(source).position as int, size as int), final(source).position as int),
{
    let name = match read_until_zero(source) {
        Ok(name) => name,
        Err(e) => return Some(Err(e)),
    };
    if (size as u64) < name.len() as u64 + 1 {
        return None;
    }
    let left = size as u64 - name.len() as u64 - 1;
    let value = match source.take(left) {
        Ok(value) => value,
        Err(e) => return Some(Err(e)),
    };
    Some(Ok((lossy(name.as_slice()), decode_windows_1252(value))))
}

/// Reads a zTXt chunk's data: keyword and text. `None` where the declared
/// size is smaller than the keyword.
fn read_ztxt(source: &mut Source, size: u32) -> (r: Option<Result<(String, String), Error>>)
    requires
        old(source).wf(),
    ensures
        final(source).wf(),
        final(source).data@ == old(source).data@,
        read_as(r, ztxt(old(source).data@, old(source).position as int, size as int), final(source).position as int),
{
    let name = match read_until_zero(source) {
        Ok(name) => name,
        Err(e) => return Some(Err(e)),
    };
    let compression = match Be::u8(source) {
        Ok(b) => b,
        Err(e) => return Some(Err(e)),
    };
    if (size as u64) < name.len() as u64 + 1 {
        return None;
    }
    let left = size as u64 - name.len() as u64 - 1;
    let data = match source.take(left) {
        Ok(data) => data,
        Err(e) => return Some(Err(e)),
    };
    let mut text = empty();
    if compression == 0 {
        if let Some(inflated) = inflate(data) {
            text = decode_windows_1252(inflated.as_slice());
        }
    }
    Some(Ok((lossy(name.as_slice()), text)))
}

/// Appends a text chunk's tag, or the tags of the XMP packet it holds.
fn add_text(keyword: String, value: String, xmp_chunk: bool, metadata: &mut Vec<Tag>) -> (r: Result<(), Error>)
    ensures
        ({
            let added = if xmp_chunk && keyword@ == XMP_KEYWORD@ {
                xmp(vstd::utf8::encode_utf8(value@))
            } else {
                (seq![(keyword@, value@)], Ok(()))
            };
            &&& view_tags(final(metadata)@) == view_tags(old(metadata)@) + added.0
            &&& r == added.1
        }),
{
    let ghost old_m = metadata@;
    if xmp_chunk && keyword == owned(XMP_KEYWORD) {
        let ghost added = xmp(vstd::utf8::encode_utf8(value@));
        let result = xmp::get(value.as_str().as_bytes(), metadata);
        proof {
            crate::lemma_pushed_view(metadata@, old_m, added.0);
        }
        result
    } else {
        let ghost pair = (keyword@, value@);
        push_tag(metadata, keyword, value);
        assert(view_tags(old_m).push(pair) =~= view_tags(old_m) + seq![pair]);
        Ok(())
    }
}

/// Reads the chunk at the source's position, appending its tags; gives the
/// tags appended. `None` where a size in the file overflows
/// the reading's arithmetic.
fn read_chunk<F: Fn(i64, i64) -> String>(source: &mut Source, metadata: &mut Vec<Tag>, ratio: &F) -> (r: Option<Result<Ghost<Seq<(Seq<char>, Seq<char>)>>, Error>>)
    requires
        old(source).wf(),
        old(source).position < old(source).data@.len(),
        renders(*ratio),
    ensures
        final(source).wf(),
        final(source).data@ == old(source).data@,
        match step(old(source).data@, old(source).position as int, *ratio) {
            None => r is None,
            Some(Err(e)) => r == Some(Err::<Ghost<Seq<(Seq<char>, Seq<char>)>>, Error>(e)),
            Some(Ok((tags, q))) => r matches Some(Ok(g)) && g@ == tags && final(source).position == q
                && view_tags(final(metadata)@) == view_tags(old(metadata)@) + tags,
        },
{
    reveal(step);
    let ghost d = source.data@;
    let ghost f = *ratio;
    let p = source.position;
    let size = match Be::u32(source) {
        Ok(size) => size,
        Err(e) => return Some(Err(e)),
    };
    let name = match source.take(4) {
        Ok(name) => name,
        Err(e) => return Some(Err(e)),
    };
    let n0 = name[0];
    let n1 = name[1];
    let n2 = name[2];
    let n3 = name[3];
    assert(name_is(d, p + 4, n0, n1, n2, n3));
    let keyword;
    let value;
    let is_itxt;
    if n0 == 0x65 && n1 == 0x58 && n2 == 0x49 && n3 == 0x66 {
        let block = match source.take(size as u64) {
            Ok(block) => block,
            Err(e) => return Some(Err(e)),
        };
        let ghost old_m = metadata@;
        let result = exif::read(block, metadata, ratio);
        match result {
            None => return None,
            Some(Err(e)) => return Some(Err(e)),
            Some(Ok(())) => {
                let ghost tags = exif(block@, f).unwrap().0;
                proof {
                    crate::lemma_pushed_view(metadata@, old_m, tags);
                }
                source.skip(4);
                return Some(Ok(Ghost(tags)));
            },
        }
    } else if n0 == 0x69 && n1 == 0x54 && n2 == 0x58 && n3 == 0x74 {
        let read = read_itxt(source, size);
        match read {
            None => return None,
            Some(Err(e)) => return Some(Err(e)),
            Some(Ok((k, v))) => {
                keyword = k;
                value = v;
                is_itxt = true;
            },
        }
    } else if n0 == 0x74 && n1 == 0x45 && n2 == 0x58 && n3 == 0x74 {
        let read = read_text(source, size);
        match read {
            None => return None,
            Some(Err(e)) => return Some(Err(e)),
            Some(Ok((k, v))) => {
                keyword = k;
                value = v;
                is_itxt = false;
            },
        }
    } else if n0 == 0x7A && n1 == 0x54 && n2 == 0x58 && n3 == 0x74 {
        let read = read_ztxt(source, size);
        match read {
            None => return None,
            Some(Err(e)) => return Some(Err(e)),
            Some(Ok((k, v))) => {
                keyword = k;
                value = v;
                is_itxt = false;
            },
        }
    } else {
        if size as u64 + 4 > 0xFFFF_FFFF {
            return None;
        }
        source.skip(size as u64 + 4);
        assert(view_tags(metadata@) =~= view_tags(old(metadata)@) + Seq::<(Seq<char>, Seq<char>)>::empty());
        return Some(Ok(Ghost(Seq::empty())));
    }
    let ghost added = if is_itxt && keyword@ == XMP_KEYWORD@ { xmp(vstd::utf8::encode_utf8(value@)).0 } else { seq![(keyword@, value@)] };
    match add_text(keyword, value, is_itxt, metadata) {
        Err(e) => return Some(Err(e)),
        Ok(()) => {},
    }
    source.skip(4);
    Some(Ok(Ghost(added)))
}

/// Reads the metadata of a PNG file: its EXIF chunk, the XMP packet of its
/// iTXt chunk, and its text chunks. Rational EXIF values are rendered by
/// `ratio`.
pub fn get<F: Fn(i64, i64) -> String>(data: &[u8], ratio: &F) -> (r: Result<Vec<Tag>, Error>)
    requires
        renders(*ratio),
        png(data@, *ratio) is Some,
    ensures
        match png(data@, *ratio).unwrap() {
            Ok(tags) => r matches Ok(v) && view_tags(v@) == tags,
            Err(e) => r == Err::<Vec<Tag>, Error>(e),
        },
{
    match read(data, ratio) {
        Some(r) => r,
        None => Err(Error::File),
    }
}

/// Reads the metadata of a PNG file as `get` does, on every file: `None`
/// where a size in the file overflows the
/// reading's arithmetic, which `get` leaves out.
pub fn read<F: Fn(i64, i64) -> String>(data: &[u8], ratio: &F) -> (r: Option<Result<Vec<Tag>, Error>>)
    requires
        renders(*ratio),
    ensures
        match png(data@, *ratio) {
            None => r is None,
            Some(Ok(tags)) => r matches Some(Ok(v)) && view_tags(v@) == tags,
            Some(Err(e)) => r == Some(Err::<Vec<Tag>, Error>(e)),
        },
{
    let ghost d = data@;
    let ghost f = *ratio;
    let mut source = Source::new(data);
    source.skip(8);
    let mut metadata: Vec<Tag> = Vec::new();
    assert(view_tags(metadata@) =~= Seq::<(Seq<char>, Seq<char>)>::empty());
    proof {
        lemma_then_empty(png(d, f));
    }
    loop
        invariant
            source.wf(),
            source.data@ == d,
            d == data@,
            f == *ratio,
            renders(*ratio),
            png(d, f) == then(view_tags(metadata@), chunks(d, source.position as int, f)),
        decreases d.len() - source.position,
    {
        let ghost before = view_tags(metadata@);
        if source.at_end() {
            assert(before + Seq::<(Seq<char>, Seq<char>)>::empty() =~= before);
            return Some(Ok(metadata));
        }
        let start = source.position;
        let added = read_chunk(&mut source, &mut metadata, ratio);
        match added {
            None => {
                return None;
            },
            Some(Err(e)) => {
                return Some(Err(e));
            },
            Some(Ok(g)) => {
                // A step that does not move the reading on ends it.
                if source.position <= start {
                    return None;
                }
                proof {
                    lemma_then_assoc(before, g@, chunks(d, source.position as int, f));
                }
            },
        }
    }
}

/// Nothing in front of a reading leaves it as it is.
pub proof fn lemma_then_empty(x: Option<Result<Seq<(Seq<char>, Seq<char>)>, Error>>)
    ensures
        then(Seq::empty(), x) == x,
{
    match x {
        Some(Ok(m)) => {
            assert(Seq::<(Seq<char>, Seq<char>)>::empty() + m =~= m);
        },
        _ => {},
    }
}

/// The chunks that removing metadata keeps: image data and everything that
/// affects how the image looks.
pub const KEPT: [[u8; 4]; 18] = [
    [0x49, 0x44, 0x41, 0x54],
    [0x49, 0x45, 0x4E, 0x44],
    [0x49, 0x48, 0x44, 0x52],
    [0x50, 0x4C, 0x54, 0x45],
    [0x61, 0x63, 0x54, 0x4C],
    [0x62, 0x4B, 0x47, 0x44],
    [0x63, 0x48, 0x52, 0x4D],
    [0x63, 0x49, 0x43, 0x50],
    [0x66, 0x52, 0x41, 0x63],
    [0x66, 0x63, 0x54, 0x4C],
    [0x66, 0x64, 0x41, 0x54],
    [0x67, 0x41, 0x4D, 0x41],
    [0x67, 0x49, 0x46, 0x67],
    [0x69, 0x43, 0x43, 0x50],
    [0x73, 0x42, 0x49, 0x54],
    [0x73, 0x52, 0x47, 0x42],
    [0x73, 0x54, 0x45, 0x52],
    [0x74, 0x52, 0x4E, 0x53],
];

/// The chunk name at `q` is one that removing metadata keeps.
pub open spec fn kept_at(d: Seq<u8>, q: int) -> bool {
    exists|i: int| 0 <= i < 18 && #[trigger] KEPT@[i]@ == d.subrange(q, q + 4)
}

/// Whether a chunk name is one that removing metadata keeps.
fn is_kept(name: &[u8]) -> (r: bool)
    requires
        name@.len() == 4,
    ensures
        r == (exists|i: int| 0 <= i < 18 && #[trigger] KEPT@[i]@ == name@),
{
    let mut i: usize = 0;
    while i < 18
        invariant
            i <= 18,
            name@.len() == 4,
            forall|j: int| 0 <= j < i ==> #[trigger] KEPT@[j]@ != name@,
        decreases 18 - i,
    {
        let k = &KEPT[i];
        if k[0] == name[0] && k[1] == name[1] && k[2] == name[2] && k[3] == name[3] {
            assert(KEPT@[i as int]@ =~= name@);
            return true;
        }
        assert(KEPT@[i as int]@[0] != name@[0] || KEPT@[i as int]@[1] != name@[1] || KEPT@[i as int]@[2] != name@[2] || KEPT@[i as int]@[3] != name@[3]);
        i += 1;
    }
    false
}

/// The chunks from `p` on that removing metadata keeps, each as it stands,
/// or the error. `None` where a size in the file overflows the
/// arithmetic.
pub open spec fn kept_chunks(d: Seq<u8>, p: int) -> Option<Result<Seq<u8>, Error>>
    decreases d.len() - p,
{
    if p >= d.len() || p < 0 {
        Some(Ok(Seq::empty()))
    } else if p + 8 > d.len() {
        Some(Err(Error::File))
    } else {
        let size = be32(d[p], d[p + 1], d[p + 2], d[p + 3]);
        let end = p + 8 + size + 4;
        if kept_at(d, p + 4) {
            if end > d.len() {
                Some(Err(Error::File))
            } else {
                match kept_chunks(d, end) {
                    Some(Ok(rest)) => Some(Ok(d.subrange(p, end) + rest)),
                    other => other,
                }
            }
        } else if size + 4 > u32::MAX {
            None
        } else {
            kept_chunks(d, seek(d.len() as int, p + 8, size + 4))
        }
    }
}

/// Removing the metadata of a PNG file: the signature and the chunks kept,
/// or the error. `None` where a size in the file overflows the
/// arithmetic.
pub open spec fn png_delete(d: Seq<u8>) -> Option<Result<Seq<u8>, Error>> {
    if d.len() < 8 {
        Some(Err(Error::File))
    } else {
        match kept_chunks(d, 8) {
            Some(Ok(rest)) => Some(Ok(d.subrange(0, 8) + rest)),
            other => other,
        }
    }
}

/// Removes the metadata of a PNG file: keeps the signature and the chunks
/// that make the image, drops every other chunk.
pub fn delete(data: &[u8]) -> (r: Result<Vec<u8>, Error>)
    requires
        png_delete(data@) is Some,
    ensures
        match png_delete(data@).unwrap() {
            Ok(o) => r matches Ok(v) && v@ == o,
            Err(e) => r == Err::<Vec<u8>, Error>(e),
        },
{
    match remove(data) {
        Some(r) => r,
        None => Err(Error::File),
    }
}

/// Removes the metadata of a PNG file as `delete` does, on every file:
/// `None` where a size in the file overflows
/// the removal's arithmetic, which `delete` leaves out.
pub fn remove(data: &[u8]) -> (r: Option<Result<Vec<u8>, Error>>)
    ensures
        match png_delete(data@) {
            None => r is None,
            Some(Ok(o)) => r matches Some(Ok(v)) && v@ == o,
            Some(Err(e)) => r == Some(Err::<Vec<u8>, Error>(e)),
        },
{
    let ghost d = data@;
    if data.len() < 8 {
        return Some(Err(Error::File));
    }
    let mut out: Vec<u8> = Vec::new();
    out.extend_from_slice(&data[0..8]);
    let mut source = Source::new(data);
    source.skip(8);
    assert(out@ =~= d.subrange(0, 8));
    assert(source.position == 8);
    loop
        invariant
            source.wf(),
            source.data@ == d,
            d == data@,
            d.len() >= 8,
            png_delete(d) == match kept_chunks(d, source.position as int) {
                Some(Ok(rest)) => Some(Ok(out@ + rest)),
                other => other,
            },
        decreases d.len() - source.position,
    {
        let p = source.position;
        if source.at_end() {
            assert(out@ + Seq::<u8>::empty() =~= out@);
            return Some(Ok(out));
        }
        let size = match Be::u32(&mut source) {
            Ok(size) => size,
            Err(e) => return Some(Err(e)),
        };
        let name = match source.take(4) {
            Ok(name) => name,
            Err(e) => return Some(Err(e)),
        };
        if is_kept(name) {
            let body = match source.take(size as u64 + 4) {
                Ok(body) => body,
                Err(e) => return Some(Err(e)),
            };
            let ghost before = out@;
            out.extend_from_slice(&data[p..p + 8]);
            out.extend_from_slice(body);
            proof {
                let end = p + 8 + size + 4;
                assert(out@ =~= before + d.subrange(p as int, end));
                match kept_chunks(d, end) {
                    Some(Ok(rest)) => {
                        assert(before + (d.subrange(p as int, end) + rest) =~= out@ + rest);
                    },
                    _ => {},
                }
            }
        } else {
            if size as u64 + 4 > 0xFFFF_FFFF {
                return None;
            }
            source.skip(size as u64 + 4);
        }
    }
}

/// From `q` to its end, `o` is a run of whole chunks, each one that
/// removing metadata keeps.
pub open spec fn kept_from(o: Seq<u8>, q: int) -> bool
    decreases o.len() - q,
{
    if q < 0 {
        false
    } else if q >= o.len() {
        q == o.len()
    } else {
        let size = be32(o[q], o[q + 1], o[q + 2], o[q + 3]);
        let end = q + 8 + size + 4;
        &&& q + 8 <= o.len()
        &&& kept_at(o, q + 4)
        &&& end <= o.len()
        &&& kept_from(o, end)
    }
}

/// What removing metadata keeps from `p` on, behind any prefix, is a run of
/// kept chunks.
proof fn lemma_kept_chunks_form(d: Seq<u8>, p: int, a: Seq<u8>)
    requires
        kept_chunks(d, p) is Some,
        kept_chunks(d, p).unwrap() is Ok,
    ensures
        kept_from(a + kept_chunks(d, p).unwrap().unwrap(), a.len() as int),
    decreases d.len() - p,
{
    if p >= d.len() || p < 0 {
        assert(a + Seq::<u8>::empty() =~= a);
    } else {
        let size = be32(d[p], d[p + 1], d[p + 2], d[p + 3]);
        let end = p + 8 + size + 4;
        if kept_at(d, p + 4) {
            let chunk = d.subrange(p, end);
            let rest = kept_chunks(d, end).unwrap().unwrap();
            lemma_kept_chunks_form(d, end, a + chunk);
            let o = a + kept_chunks(d, p).unwrap().unwrap();
            let q = a.len() as int;
            assert(o =~= (a + chunk) + rest);
            assert(o.subrange(q + 4, q + 8) =~= d.subrange(p + 4, p + 8));
            assert(o[q] == d[p] && o[q + 1] == d[p + 1] && o[q + 2] == d[p + 2] && o[q + 3] == d[p + 3]);
        } else {
            lemma_kept_chunks_form(d, seek(d.len() as int, p + 8, size + 4), a);
        }
    }
}

/// Over a run of kept chunks, removing metadata keeps everything.
proof fn lemma_kept_chunks_all(o: Seq<u8>, q: int)
    requires
        kept_from(o, q),
    ensures
        kept_chunks(o, q) == Some(Ok::<Seq<u8>, Error>(o.subrange(q, o.len() as int))),
    decreases o.len() - q,
{
    if q >= o.len() {
        assert(o.subrange(q, o.len() as int) =~= Seq::<u8>::empty());
    } else {
        let size = be32(o[q], o[q + 1], o[q + 2], o[q + 3]);
        let end = q + 8 + size + 4;
        lemma_kept_chunks_all(o, end);
        assert(o.subrange(q, end) + o.subrange(end, o.len() as int) =~= o.subrange(q, o.len() as int));
    }
}

/// Over a run of kept chunks, reading metadata finds no tag.
proof fn lemma_kept_chunks_read<F: Fn(i64, i64) -> String>(o: Seq<u8>, q: int, f: F)
    requires
        kept_from(o, q),
    ensures
        chunks(o, q, f) is None || chunks(o, q, f) == Some(Ok::<Seq<(Seq<char>, Seq<char>)>, Error>(Seq::empty())),
    decreases o.len() - q,
{
    if q < o.len() {
        reveal(step);
        let size = be32(o[q], o[q + 1], o[q + 2], o[q + 3]);
        let end = q + 8 + size + 4;
        let i = choose|i: int| 0 <= i < 18 && #[trigger] KEPT@[i]@ == o.subrange(q + 4, q + 8);
        assert(KEPT@[i]@[0] == o[q + 4] && KEPT@[i]@[1] == o[q + 5]);
        lemma_kept_chunks_read(o, end, f);
        let empty = Seq::<(Seq<char>, Seq<char>)>::empty();
        assert(empty + empty =~= empty);
    }
}

/// Removing the metadata of a PNG file a second time changes nothing.
pub proof fn lemma_delete_idempotent(d: Seq<u8>, o: Seq<u8>)
    requires
        png_delete(d) == Some(Ok::<Seq<u8>, Error>(o)),
    ensures
        png_delete(o) == Some(Ok::<Seq<u8>, Error>(o)),
{
    let sig = d.subrange(0, 8);
    lemma_kept_chunks_form(d, 8, sig);
    lemma_kept_chunks_all(o, 8);
    assert(o.subrange(0, 8) + o.subrange(8, o.len() as int) =~= o);
}

/// A PNG file whose metadata was removed carries no metadata: reading it
/// gives no tag, wherever no size in the file overflows the reading's
/// arithmetic.
pub proof fn lemma_delete_leaves_nothing<F: Fn(i64, i64) -> String>(d: Seq<u8>, o: Seq<u8>, f: F)
    requires
        png_delete(d) == Some(Ok::<Seq<u8>, Error>(o)),
        png(o, f) is Some,
    ensures
        png(o, f) == Some(Ok::<Seq<(Seq<char>, Seq<char>)>, Error>(Seq::empty())),
{
    let sig = d.subrange(0, 8);
    lemma_kept_chunks_form(d, 8, sig);
    lemma_kept_chunks_read(o, 8, f);
}

} // verus!
