use crate::{
    Error, Tag, renders, view_tags,
    metadata::{
        exif::{self, exif},
        png::{lemma_then_assoc, lemma_then_empty, name_is, then},
        xmp::{self, xmp_named},
    },
    utilities::{
        bytes::be32,
        stream::{Bytes, Le, Source, seek},
    },
};
use vstd::prelude::*;

verus! {

/// The unsigned number that four bytes at `p` spell, least significant first.
pub open spec fn le32_at(d: Seq<u8>, p: int) -> int {
    be32(d[p + 3], d[p + 2], d[p + 1], d[p])
}

/// A chunk's size rounded up to an even number: chunks are padded to even
/// lengths.
pub open spec fn padded(size: int) -> int {
    if size % 2 == 1 { size + 1 } else { size }
}

/// Reading the chunk at `p` (there is at least a byte left): the tags it
/// gives and where the next chunk starts, or the error. `None` where a
/// size in the file overflows the reading's arithmetic. The tags of an XMP chunk are named by
/// their qualified names.
#[verifier::opaque]
pub open spec fn entry<F: Fn(i64, i64) -> String>(d: Seq<u8>, p: int, f: F) -> Option<Result<(Seq<(Seq<char>, Seq<char>)>, int), Error>> {
    if p + 8 > d.len() {
        Some(Err(Error::File))
    } else {
        let size = le32_at(d, p + 4);
        let r = p + 8;
        if name_is(d, p, 0x45, 0x58, 0x49, 0x46) {
            if size == u32::MAX {
                None
            } else if r + padded(size) > d.len() {
                Some(Err(Error::File))
            } else {
                match exif(d.subrange(r, r + padded(size)), f) {
                    None => None,
                    Some((_, Err(e))) => Some(Err(e)),
                    Some((tags, Ok(()))) => Some(Ok((tags, r + padded(size)))),
                }
            }
        } else if name_is(d, p, 0x58, 0x4D, 0x50, 0x20) {
            if r + size > d.len() {
                Some(Err(Error::File))
            } else {
                let (tags, res) = xmp_named(d.subrange(r, r + size), true);
                match res {
                    Err(e) => Some(Err(e)),
                    Ok(()) => Some(Ok((tags, if size % 2 == 1 { seek(d.len() as int, r + size, 1) } else { r + size }))),
                }
            }
        } else if size == u32::MAX {
            None
        } else {
            Some(Ok((Seq::empty(), seek(d.len() as int, r, padded(size)))))
        }
    }
}

/// Reading the chunks of a WebP file from position `p`: the tags, or the
/// error. `None` where a size in the file overflows the
/// reading's arithmetic.
pub open spec fn entries<F: Fn(i64, i64) -> String>(d: Seq<u8>, p: int, f: F) -> Option<Result<Seq<(Seq<char>, Seq<char>)>, Error>>
    decreases d.len() - p,
{
    if p >= d.len() || p < 0 {
        Some(Ok(Seq::empty()))
    } else {
        match entry(d, p, f) {
            None => None,
            Some(Err(e)) => Some(Err(e)),
            Some(Ok((tags, q))) => if q <= p || q > d.len() {
                None
            } else {
                then(tags, entries(d, q, f))
            },
        }
    }
}

/// Reading goes from each chunk that fits in the file to the next one at its
/// padded end: the tags of the chunks from `p` on are the tags of the chunk
/// at `p` (those of its EXIF block, of its XMP packet, or none for any other
/// chunk) followed by the tags of the chunks after it. So a file with an
/// EXIF chunk and then an XMP chunk reports the XMP tags as well.
pub proof fn lemma_chunk_then_rest<F: Fn(i64, i64) -> String>(d: Seq<u8>, p: int, f: F)
    requires
        0 <= p,
        p + 8 <= d.len(),
        le32_at(d, p + 4) != u32::MAX,
        p + 8 + padded(le32_at(d, p + 4)) <= d.len(),
    ensures
        ({
            let size = le32_at(d, p + 4);
            let end = p + 8 + padded(size);
            &&& name_is(d, p, 0x45, 0x58, 0x49, 0x46) ==> (exif(d.subrange(p + 8, end), f) matches Some((tags, Ok(())))
                ==> entries(d, p, f) == then(tags, entries(d, end, f)))
            &&& name_is(d, p, 0x58, 0x4D, 0x50, 0x20) ==> (xmp_named(d.subrange(p + 8, p + 8 + size), true) matches (tags, Ok(()))
                ==> entries(d, p, f) == then(tags, entries(d, end, f)))
            &&& !name_is(d, p, 0x45, 0x58, 0x49, 0x46) && !name_is(d, p, 0x58, 0x4D, 0x50, 0x20)
                ==> entries(d, p, f) == entries(d, end, f)
        }),
{
    reveal(entry);
    let size = le32_at(d, p + 4);
    let end = p + 8 + padded(size);
    if !name_is(d, p, 0x45, 0x58, 0x49, 0x46) && !name_is(d, p, 0x58, 0x4D, 0x50, 0x20) {
        let empty = Seq::<(Seq<char>, Seq<char>)>::empty();
        match entries(d, end, f) {
            Some(Ok(m)) => {
                assert(empty + m =~= m);
            },
            _ => {},
        }
    }
}

/// Reading a WebP file: the tags of its EXIF and XMP chunks, or the error.
/// `None` where a size in the file overflows the
/// reading's arithmetic.
pub open spec fn webp<F: Fn(i64, i64) -> String>(d: Seq<u8>, f: F) -> Option<Result<Seq<(Seq<char>, Seq<char>)>, Error>> {
    entries(d, seek(d.len() as int, 0, 12), f)
}

/// Reads the chunk at the source's position, appending its tags; gives the
/// tags appended. `None` where a size in the file overflows
/// the reading's arithmetic.
fn read_entry<F: Fn(i64, i64) -> String>(source: &mut Source, metadata: &mut Vec<Tag>, ratio: &F) -> (r: Option<Result<Ghost<Seq<(Seq<char>, Seq<char>)>>, Error>>)
    requires
        old(source).wf(),
        old(source).position < old(source).data@.len(),
        renders(*ratio),
    ensures
        final(source).wf(),
        final(source).data@ == old(source).data@,
        match entry(old(source).data@, old(source).position as int, *ratio) {
            None => r is None,
            Some(Err(e)) => r == Some(Err::<Ghost<Seq<(Seq<char>, Seq<char>)>>, Error>(e)),
            Some(Ok((tags, q))) => r matches Some(Ok(g)) && g@ == tags && final(source).position == q
                && view_tags(final(metadata)@) == view_tags(old(metadata)@) + tags,
        },
{
    reveal(entry);
    let ghost d = source.data@;
    let ghost f = *ratio;
    let p = source.position;
    let code = match source.take(4) {
        Ok(code) => code,
        Err(e) => return Some(Err(e)),
    };
    let size = match Le::u32(source) {
        Ok(size) => size,
        Err(e) => return Some(Err(e)),
    };
    let c0 = code[0];
    let c1 = code[1];
    let c2 = code[2];
    let c3 = code[3];
    assert(name_is(d, p as int, c0, c1, c2, c3));
    if c0 == 0x45 && c1 == 0x58 && c2 == 0x49 && c3 == 0x46 {
        if size == 0xFFFF_FFFF {
            return None;
        }
        let n: u64 = if size % 2 == 1 { size as u64 + 1 } else { size as u64 };
        let block = match source.take(n) {
            Ok(block) => block,
            Err(e) => return Some(Err(e)),
        };
        let ghost old_m = metadata@;
        let result = exif::read(block, metadata, ratio);
        match result {
            None => None,
            Some(Err(e)) => Some(Err(e)),
            Some(Ok(())) => {
                let ghost tags = exif(block@, f).unwrap().0;
                proof {
                    crate::lemma_pushed_view(metadata@, old_m, tags);
                }
                Some(Ok(Ghost(tags)))
            },
        }
    } else if c0 == 0x58 && c1 == 0x4D && c2 == 0x50 && c3 == 0x20 {
        let block = match source.take(size as u64) {
            Ok(block) => block,
            Err(e) => return Some(Err(e)),
        };
        let ghost tags = xmp_named(block@, true).0;
        let ghost old_m = metadata@;
        let result = xmp::read(block, metadata, true);
        proof {
            crate::lemma_pushed_view(metadata@, old_m, tags);
        }
        if let Err(e) = result {
            return Some(Err(e));
        }
        if size % 2 == 1 {
            source.skip(1);
        }
        Some(Ok(Ghost(tags)))
    } else {
        if size == 0xFFFF_FFFF {
            return None;
        }
        let n: u64 = if size % 2 == 1 { size as u64 + 1 } else { size as u64 };
        source.skip(n);
        assert(view_tags(metadata@) =~= view_tags(old(metadata)@) + Seq::<(Seq<char>, Seq<char>)>::empty());
        Some(Ok(Ghost(Seq::empty())))
    }
}

/// Reads the metadata of a WebP file: its EXIF chunk and the XMP packet of
/// its XMP chunk, whose tags are named by their qualified names. Rational
/// EXIF values are rendered by `ratio`.
pub fn get<F: Fn(i64, i64) -> String>(data: &[u8], ratio: &F) -> (r: Result<Vec<Tag>, Error>)
    requires
        renders(*ratio),
        webp(data@, *ratio) is Some,
    ensures
        match webp(data@, *ratio).unwrap() {
            Ok(tags) => r matches Ok(v) && view_tags(v@) == tags,
            Err(e) => r == Err::<Vec<Tag>, Error>(e),
        },
{
    match read(data, ratio) {
        Some(r) => r,
        None => Err(Error::File),
    }
}

/// Reads the metadata of a WebP file as `get` does, on every file: `None`
/// where a size in the file overflows the
/// reading's arithmetic, which `get` leaves out.
pub fn read<F: Fn(i64, i64) -> String>(data: &[u8], ratio: &F) -> (r: Option<Result<Vec<Tag>, Error>>)
    requires
        renders(*ratio),
    ensures
        match webp(data@, *ratio) {
            None => r is None,
            Some(Ok(tags)) => r matches Some(Ok(v)) && view_tags(v@) == tags,
            Some(Err(e)) => r == Some(Err::<Vec<Tag>, Error>(e)),
        },
{
    let ghost d = data@;
    let ghost f = *ratio;
    let mut source = Source::new(data);
    source.skip(12);
    let mut metadata: Vec<Tag> = Vec::new();
    assert(view_tags(metadata@) =~= Seq::<(Seq<char>, Seq<char>)>::empty());
    proof {
        lemma_then_empty(webp(d, f));
    }
    loop
        invariant
            source.wf(),
            source.data@ == d,
            d == data@,
            f == *ratio,
            renders(*ratio),
            webp(d, f) == then(view_tags(metadata@), entries(d, source.position as int, f)),
        decreases d.len() - source.position,
    {
        let ghost before = view_tags(metadata@);
        if source.at_end() {
            assert(before + Seq::<(Seq<char>, Seq<char>)>::empty() =~= before);
            return Some(Ok(metadata));
        }
        let start = source.position;
        let added = read_entry(&mut source, &mut metadata, ratio);
        match added {
            None => {
                return None;
            },
            Some(Err(e)) => {
                return Some(Err(e));
            },
            Some(Ok(g)) => {
                // A step that does not move the reading on ends it.
                if source.position <= start {
                    return None;
                }
                proof {
                    lemma_then_assoc(before, g@, entries(d, source.position as int, f));
                }
            },
        }
    }
}

/// The chunks that removing metadata keeps: image data, animation and the
/// colour profile.
pub const KEPT: [[u8; 4]; 7] = [
    [0x41, 0x4C, 0x50, 0x48],
    [0x41, 0x4E, 0x49, 0x4D],
    [0x41, 0x4E, 0x4D, 0x46],
    [0x49, 0x43, 0x43, 0x50],
    [0x56, 0x50, 0x38, 0x20],
    [0x56, 0x50, 0x38, 0x4C],
    [0x56, 0x50, 0x38, 0x58],
];

/// The chunk code at `q` is one that removing metadata keeps.
pub open spec fn kept_at(d: Seq<u8>, q: int) -> bool {
    exists|i: int| 0 <= i < 7 && #[trigger] KEPT@[i]@ == d.subrange(q, q + 4)
}

/// Whether a chunk code is one that removing metadata keeps.
fn is_kept(code: &[u8]) -> (r: bool)
    requires
        code@.len() == 4,
    ensures
        r == (exists|i: int| 0 <= i < 7 && #[trigger] KEPT@[i]@ == code@),
{
    let mut i: usize = 0;
    while i < 7
        invariant
            i <= 7,
            code@.len() == 4,
            forall|j: int| 0 <= j < i ==> #[trigger] KEPT@[j]@ != code@,
        decreases 7 - i,
    {
        let k = &KEPT[i];
        if k[0] == code[0] && k[1] == code[1] && k[2] == code[2] && k[3] == code[3] {
            assert(KEPT@[i as int]@ =~= code@);
            return true;
        }
        assert(KEPT@[i as int]@[0] != code@[0] || KEPT@[i as int]@[1] != code@[1] || KEPT@[i as int]@[2] != code@[2] || KEPT@[i as int]@[3] != code@[3]);
        i += 1;
    }
    false
}

/// The chunks from `p` on that removing metadata keeps, each with its
/// header and padded data, or the error. `None` where a size in the
/// file overflows the arithmetic.
pub open spec fn kept_entries(d: Seq<u8>, p: int) -> Option<Result<Seq<u8>, Error>>
    decreases d.len() - p,
{
    if p >= d.len() || p < 0 {
        Some(Ok(Seq::empty()))
    } else if p + 8 > d.len() {
        Some(Err(Error::File))
    } else {
        let size = le32_at(d, p + 4);
        let end = p + 8 + padded(size);
        if size == u32::MAX {
            None
        } else if kept_at(d, p) {
            if end > d.len() {
                Some(Err(Error::File))
            } else {
                match kept_entries(d, end) {
                    Some(Ok(rest)) => Some(Ok(d.subrange(p, end) + rest)),
                    other => other,
                }
            }
        } else {
            kept_entries(d, seek(d.len() as int, p + 8, padded(size)))
        }
    }
}

/// The four bytes of a 32-bit number, least significant first.
pub open spec fn le32_bytes(v: int) -> Seq<u8> {
    seq![(v % 256) as u8, (v / 256 % 256) as u8, (v / 65536 % 256) as u8, (v / 16777216 % 256) as u8]
}

/// The RIFF header of a WebP file whose chunks take `len` bytes: the size
/// field holds the length cut to 32 bits, plus four.
pub open spec fn header(len: int) -> Seq<u8> {
    seq![0x52u8, 0x49, 0x46, 0x46] + le32_bytes(len % 0x1_0000_0000 + 4) + seq![0x57u8, 0x45, 0x42, 0x50]
}

/// Removing the metadata of a WebP file: a new RIFF header and the chunks
/// kept, or the error. `None` where a size in the file overflows the
/// arithmetic.
pub open spec fn webp_delete(d: Seq<u8>) -> Option<Result<Seq<u8>, Error>> {
    match kept_entries(d, seek(d.len() as int, 0, 12)) {
        Some(Ok(body)) => if body.len() % 0x1_0000_0000 + 4 > u32::MAX {
            None
        } else {
            Some(Ok(header(body.len() as int) + body))
        },
        other => other,
    }
}

/// The chunks behind a RIFF header.
fn riff(body: Vec<u8>) -> (r: Vec<u8>)
    requires
        body@.len() % 0x1_0000_0000 + 4 <= u32::MAX,
    ensures
        r@ == header(body@.len() as int) + body@,
{
    let len: u64 = body.len() as u64;
    let size: u64 = len % 0x1_0000_0000 + 4;
    let mut out: Vec<u8> = Vec::new();
    out.push(0x52);
    out.push(0x49);
    out.push(0x46);
    out.push(0x46);
    out.push((size % 256) as u8);
    out.push((size / 256 % 256) as u8);
    out.push((size / 65536 % 256) as u8);
    out.push((size / 16777216 % 256) as u8);
    out.push(0x57);
    out.push(0x45);
    out.push(0x42);
    out.push(0x50);
    let ghost head = out@;
    out.extend_from_slice(body.as_slice());
    assert(head =~= header(body@.len() as int));
    out
}

/// Removes the metadata of a WebP file: keeps the chunks that make the
/// image and writes them behind a new RIFF header.
pub fn delete(data: &[u8]) -> (r: Result<Vec<u8>, Error>)
    requires
        webp_delete(data@) is Some,
    ensures
        match webp_delete(data@).unwrap() {
            Ok(o) => r matches Ok(v) && v@ == o,
            Err(e) => r == Err::<Vec<u8>, Error>(e),
        },
{
    match remove(data) {
        Some(r) => r,
        None => Err(Error::File),
    }
}

/// Removes the metadata of a WebP file as `delete` does, on every file:
/// `None` where a size in the file overflows
/// the removal's arithmetic, which `delete` leaves out.
pub fn remove(data: &[u8]) -> (r: Option<Result<Vec<u8>, Error>>)
    ensures
        match webp_delete(data@) {
            None => r is None,
            Some(Ok(o)) => r matches Some(Ok(v)) && v@ == o,
            Some(Err(e)) => r == Some(Err::<Vec<u8>, Error>(e)),
        },
{
    let ghost d = data@;
    let mut body: Vec<u8> = Vec::new();
    let mut source = Source::new(data);
    source.skip(12);
    proof {
        match kept_entries(d, source.position as int) {
            Some(Ok(rest)) => {
                assert(body@ + rest =~= rest);
            },
            _ => {},
        }
    }
    loop
        invariant
            source.wf(),
            source.data@ == d,
            d == data@,
            kept_entries(d, seek(d.len() as int, 0, 12)) == match kept_entries(d, source.position as int) {
                Some(Ok(rest)) => Some(Ok(body@ + rest)),
                other => other,
            },
        decreases d.len() - source.position,
    {
        let p = source.position;
        if source.at_end() {
            assert(body@ + Seq::<u8>::empty() =~= body@);
            if body.len() as u64 % 0x1_0000_0000 + 4 > 0xFFFF_FFFF {
                return None;
            }
            return Some(Ok(riff(body)));
        }
        let code = match source.take(4) {
            Ok(code) => code,
            Err(e) => return Some(Err(e)),
        };
        let size = match Le::u32(&mut source) {
            Ok(size) => size,
            Err(e) => return Some(Err(e)),
        };
        if size == 0xFFFF_FFFF {
            return None;
        }
        let n: u64 = if size % 2 == 1 { size as u64 + 1 } else { size as u64 };
        if is_kept(code) {
            assert(code@ == d.subrange(p as int, p + 4));
            let chunk = match source.take(n) {
                Ok(chunk) => chunk,
                Err(e) => return Some(Err(e)),
            };
            let ghost before = body@;
            body.extend_from_slice(&data[p..p + 8]);
            body.extend_from_slice(chunk);
            proof {
                let end = p + 8 + n;
                assert(body@ =~= before + d.subrange(p as int, end));
                match kept_entries(d, end) {
                    Some(Ok(rest)) => {
                        assert(before + (d.subrange(p as int, end) + rest) =~= body@ + rest);
                    },
                    _ => {},
                }
            }
        } else {
            assert(!kept_at(d, p as int)) by {
                assert(code@ == d.subrange(p as int, p + 4));
            }
            source.skip(n);
        }
    }
}

/// From `q` to its end, `o` is a run of whole chunks, each one that
/// removing metadata keeps.
pub open spec fn kept_from(o: Seq<u8>, q: int) -> bool
    decreases o.len() - q,
{
    if q < 0 {
        false
    } else if q >= o.len() {
        q == o.len()
    } else {
        let size = le32_at(o, q + 4);
        let end = q + 8 + padded(size);
        &&& q + 8 <= o.len()
        &&& kept_at(o, q)
        &&& size != u32::MAX
        &&& end <= o.len()
        &&& kept_from(o, end)
    }
}

/// What removing metadata keeps from `p` on, behind any prefix, is a run of
/// kept chunks.
proof fn lemma_kept_entries_form(d: Seq<u8>, p: int, a: Seq<u8>)
    requires
        kept_entries(d, p) is Some,
        kept_entries(d, p).unwrap() is Ok,
    ensures
        kept_from(a + kept_entries(d, p).unwrap().unwrap(), a.len() as int),
    decreases d.len() - p,
{
    if p >= d.len() || p < 0 {
        assert(a + Seq::<u8>::empty() =~= a);
    } else {
        let size = le32_at(d, p + 4);
        let end = p + 8 + padded(size);
        if kept_at(d, p) {
            let chunk = d.subrange(p, end);
            let rest = kept_entries(d, end).unwrap().unwrap();
            lemma_kept_entries_form(d, end, a + chunk);
            let o = a + kept_entries(d, p).unwrap().unwrap();
            let q = a.len() as int;
            assert(o =~= (a + chunk) + rest);
            assert(o.subrange(q, q + 4) =~= d.subrange(p, p + 4));
            assert(o[q + 4] == d[p + 4] && o[q + 5] == d[p + 5] && o[q + 6] == d[p + 6] && o[q + 7] == d[p + 7]);
        } else {
            lemma_kept_entries_form(d, seek(d.len() as int, p + 8, padded(size)), a);
        }
    }
}

/// Over a run of kept chunks, removing metadata keeps everything.
proof fn lemma_kept_entries_all(o: Seq<u8>, q: int)
    requires
        kept_from(o, q),
    ensures
        kept_entries(o, q) == Some(Ok::<Seq<u8>, Error>(o.subrange(q, o.len() as int))),
    decreases o.len() - q,
{
    if q >= o.len() {
        assert(o.subrange(q, o.len() as int) =~= Seq::<u8>::empty());
    } else {
        let end = q + 8 + padded(le32_at(o, q + 4));
        lemma_kept_entries_all(o, end);
        assert(o.subrange(q, end) + o.subrange(end, o.len() as int) =~= o.subrange(q, o.len() as int));
    }
}

/// Over a run of kept chunks, reading metadata finds no tag.
proof fn lemma_kept_entries_read<F: Fn(i64, i64) -> String>(o: Seq<u8>, q: int, f: F)
    requires
        kept_from(o, q),
    ensures
        entries(o, q, f) == Some(Ok::<Seq<(Seq<char>, Seq<char>)>, Error>(Seq::empty())),
    decreases o.len() - q,
{
    if q < o.len() {
        reveal(entry);
        let end = q + 8 + padded(le32_at(o, q + 4));
        let i = choose|i: int| 0 <= i < 7 && #[trigger] KEPT@[i]@ == o.subrange(q, q + 4);
        assert(KEPT@[i]@[0] == o[q] && KEPT@[i]@[1] == o[q + 1]);
        lemma_kept_entries_read(o, end, f);
        let empty = Seq::<(Seq<char>, Seq<char>)>::empty();
        assert(empty + empty =~= empty);
    }
}

/// The chunks that a WebP file whose metadata was removed holds behind its
/// header are a run of kept chunks.
proof fn lemma_deleted_form(d: Seq<u8>, o: Seq<u8>)
    requires
        webp_delete(d) == Some(Ok::<Seq<u8>, Error>(o)),
    ensures
        o.len() >= 12,
        kept_from(o, 12),
{
    let body = kept_entries(d, seek(d.len() as int, 0, 12)).unwrap().unwrap();
    let head = header(body.len() as int);
    lemma_kept_entries_form(d, seek(d.len() as int, 0, 12), head);
}

/// Removing the metadata of a WebP file a second time changes nothing.
pub proof fn lemma_delete_idempotent(d: Seq<u8>, o: Seq<u8>)
    requires
        webp_delete(d) == Some(Ok::<Seq<u8>, Error>(o)),
    ensures
        webp_delete(o) == Some(Ok::<Seq<u8>, Error>(o)),
{
    let body = kept_entries(d, seek(d.len() as int, 0, 12)).unwrap().unwrap();
    lemma_deleted_form(d, o);
    lemma_kept_entries_all(o, 12);
    assert(o.subrange(12, o.len() as int) =~= body);
}

/// A WebP file whose metadata was removed carries no metadata: reading it
/// gives no tag.
pub proof fn lemma_delete_leaves_nothing<F: Fn(i64, i64) -> String>(d: Seq<u8>, o: Seq<u8>, f: F)
    requires
        webp_delete(d) == Some(Ok::<Seq<u8>, Error>(o)),
    ensures
        webp(o, f) == Some(Ok::<Seq<(Seq<char>, Seq<char>)>, Error>(Seq::empty())),
{
    lemma_deleted_form(d, o);
    lemma_kept_entries_read(o, 12, f);
}

} // verus!
