use crate::{Error, Tag, renders, view_tags, text::owned, utilities::stream::seek as stream_seek};
use vstd::prelude::*;

pub mod exif;
pub mod iptc;
pub mod jpeg;
pub mod mp3;
pub mod office;
pub mod pdf;
pub mod png;
pub mod webp;
pub mod xmp;

verus! {

/// The kinds of files whose metadata the library reads and removes.
#[derive(Debug, Clone, Copy, PartialEq, Eq, Structural)]
pub enum Metadata {
    Docx,
    Jpeg,
    Pdf,
    Png,
    Webp,
    Xlsx,
}

/// The kind of a file, told by its first eight bytes and, for Office
/// documents (ZIP archives), by its extension; `None` for a file shorter
/// than eight bytes or of another kind.
pub open spec fn kind_of(d: Seq<u8>, extension: Option<Seq<char>>) -> Option<Metadata> {
    if d.len() < 8 {
        None
    } else if d[0] == 0x25 {
        if d.subrange(1, 5) == seq![0x50u8, 0x44, 0x46, 0x2D] { Some(Metadata::Pdf) } else { None }
    } else if d[0] == 0x52 {
        if d.subrange(1, 4) == seq![0x49u8, 0x46, 0x46] { Some(Metadata::Webp) } else { None }
    } else if d[0] == 0x50 {
        if d.subrange(1, 4) == seq![0x4Bu8, 0x03, 0x04] {
            if extension == Some("docx"@) {
                Some(Metadata::Docx)
            } else if extension == Some("xlsx"@) {
                Some(Metadata::Xlsx)
            } else {
                None
            }
        } else {
            None
        }
    } else if d[0] == 0x89 {
        if d.subrange(1, 8) == seq![0x50u8, 0x4E, 0x47, 0x0D, 0x0A, 0x1A, 0x0A] { Some(Metadata::Png) } else { None }
    } else if d[0] == 0xFF {
        if d.subrange(1, 3) == seq![0xD8u8, 0xFF] { Some(Metadata::Jpeg) } else { None }
    } else {
        None
    }
}

/// Reading the metadata of a file of kind `kind`: the tags, or the error.
/// `None` where a size in the file overflows
/// the reading's arithmetic.
pub open spec fn reading<F: Fn(i64, i64) -> String>(kind: Metadata, d: Seq<u8>, f: F) -> Option<Result<Seq<(Seq<char>, Seq<char>)>, Error>> {
    match kind {
        Metadata::Docx | Metadata::Xlsx => Some(office::office(d)),
        Metadata::Jpeg => jpeg::jpeg(d, f),
        Metadata::Pdf => Some(pdf::pdf(d)),
        Metadata::Png => png::png(d, f),
        Metadata::Webp => webp::webp(d, f),
    }
}

/// Whether the bytes from `from` on match some others.
fn matches_at(d: &[u8], from: usize, expected: &[u8]) -> (r: bool)
    requires
        from + expected@.len() <= d@.len(),
    ensures
        r == (d@.subrange(from as int, from + expected@.len()) == expected@),
{
    let size = d.len();
    let end = from + expected.len();
    assert(end <= size);
    crate::text::same_bytes(&d[from..end], expected)
}

/// Whether an optional text is a given one.
fn is_extension(extension: Option<&str>, expected: &str) -> (r: bool)
    ensures
        r == (match extension {
            Some(e) => Some(e@),
            None => None,
        } == Some(expected@)),
{
    match extension {
        Some(e) => owned(e) == owned(expected),
        None => false,
    }
}

impl Metadata {
    /// Tells the kind of a file from its first eight bytes and, for Office
    /// documents, its extension.
    pub fn guess(data: &[u8], extension: Option<&str>) -> (r: Option<Metadata>)
        ensures
            r == kind_of(data@, match extension {
                Some(e) => Some(e@),
                None => None,
            }),
    {
        if data.len() < 8 {
            return None;
        }
        let first = data[0];
        if first == 0x25 {
            if matches_at(data, 1, [0x50u8, 0x44, 0x46, 0x2D].as_slice()) { Some(Metadata::Pdf) } else { None }
        } else if first == 0x52 {
            if matches_at(data, 1, [0x49u8, 0x46, 0x46].as_slice()) { Some(Metadata::Webp) } else { None }
        } else if first == 0x50 {
            if matches_at(data, 1, [0x4Bu8, 0x03, 0x04].as_slice()) {
                if is_extension(extension, "docx") {
                    Some(Metadata::Docx)
                } else if is_extension(extension, "xlsx") {
                    Some(Metadata::Xlsx)
                } else {
                    None
                }
            } else {
                None
            }
        } else if first == 0x89 {
            if matches_at(data, 1, [0x50u8, 0x4E, 0x47, 0x0D, 0x0A, 0x1A, 0x0A].as_slice()) { Some(Metadata::Png) } else { None }
        } else if first == 0xFF {
            if matches_at(data, 1, [0xD8u8, 0xFF].as_slice()) { Some(Metadata::Jpeg) } else { None }
        } else {
            None
        }
    }

    /// Reads the metadata of a file of this kind. Rational EXIF values are
    /// rendered by `ratio`.
    pub fn get<F: Fn(i64, i64) -> String>(&self, data: &[u8], ratio: &F) -> (r: Result<Vec<Tag>, Error>)
        requires
            renders(*ratio),
            reading(*self, data@, *ratio) is Some,
        ensures
            match reading(*self, data@, *ratio).unwrap() {
                Ok(tags) => r matches Ok(v) && view_tags(v@) == tags,
                Err(e) => r == Err::<Vec<Tag>, Error>(e),
            },
    {
        match self.read(data, ratio) {
            Some(r) => r,
            None => Err(Error::File),
        }
    }

    /// Reads the metadata of a file of this kind as `get` does, on every
    /// file: `None` where a size in the file overflows the reading's
    /// arithmetic, which `get` leaves out.
    pub fn read<F: Fn(i64, i64) -> String>(&self, data: &[u8], ratio: &F) -> (r: Option<Result<Vec<Tag>, Error>>)
        requires
            renders(*ratio),
        ensures
            match reading(*self, data@, *ratio) {
                None => r is None,
                Some(Ok(tags)) => r matches Some(Ok(v)) && view_tags(v@) == tags,
                Some(Err(e)) => r == Some(Err::<Vec<Tag>, Error>(e)),
            },
    {
        match self {
            Metadata::Docx | Metadata::Xlsx => Some(office::get(data)),
            Metadata::Jpeg => jpeg::read(data, ratio),
            Metadata::Pdf => Some(pdf::get(data)),
            Metadata::Png => png::read(data, ratio),
            Metadata::Webp => webp::read(data, ratio),
        }
    }
}

/// The entries of its own that an Office document of kind `kind` keeps
/// under a folder.
pub open spec fn folder(kind: Metadata) -> Seq<char> {
    if kind == Metadata::Xlsx { "xl/"@ } else { "word/"@ }
}

/// Removing the metadata of a file of kind `kind`: the file that is left,
/// or the error. `None` where a size in the file overflows the removal's
/// arithmetic. For an Office document, the archive written.
pub open spec fn removal(kind: Metadata, d: Seq<u8>) -> Option<Result<Seq<u8>, Error>> {
    match kind {
        Metadata::Docx | Metadata::Xlsx => Some(office::office_removal(d, folder(kind))),
        Metadata::Jpeg => jpeg::jpeg_delete(d),
        Metadata::Pdf => Some(pdf::pdf_delete(d)),
        Metadata::Png => png::png_delete(d),
        Metadata::Webp => webp::webp_delete(d),
    }
}

impl Metadata {
    /// Removes the metadata of a file of this kind, giving the file that is
    /// left. For an Office document, a failure of the archive writer gives
    /// `Error::File`.
    pub fn delete(&self, data: &[u8]) -> (r: Result<Vec<u8>, Error>)
        requires
            removal(*self, data@) is Some,
        ensures
            match removal(*self, data@).unwrap() {
                Ok(o) => r matches Ok(v) && v@ == o,
                Err(e) => r == Err::<Vec<u8>, Error>(e),
            },
    {
        match self.remove(data) {
            Some(r) => r,
            None => Err(Error::File),
        }
    }

    /// Removes the metadata of a file of this kind as `delete` does, on
    /// every file: `None` where a size in the file overflows the
    /// removal's arithmetic, which `delete` leaves out.
    pub fn remove(&self, data: &[u8]) -> (r: Option<Result<Vec<u8>, Error>>)
        ensures
            match removal(*self, data@) {
                None => r is None,
                Some(Ok(o)) => r matches Some(Ok(v)) && v@ == o,
                Some(Err(e)) => r == Some(Err::<Vec<u8>, Error>(e)),
            },
    {
        match self {
            Metadata::Docx => Some(office::delete(data, "word/")),
            Metadata::Jpeg => jpeg::remove(data),
            Metadata::Pdf => Some(pdf::delete(data)),
            Metadata::Png => png::remove(data),
            Metadata::Webp => webp::remove(data),
            Metadata::Xlsx => Some(office::delete(data, "xl/")),
        }
    }
}

/// Removing the metadata of a PNG file keeps it a PNG file.
pub proof fn lemma_png_delete_keeps_kind(d: Seq<u8>, o: Seq<u8>, extension: Option<Seq<char>>)
    requires
        kind_of(d, extension) == Some(Metadata::Png),
        png::png_delete(d) == Some(Ok::<Seq<u8>, Error>(o)),
    ensures
        kind_of(o, extension) == Some(Metadata::Png),
{
    let rest = png::kept_chunks(d, 8)->Some_0->Ok_0;
    assert(o =~= d.subrange(0, 8) + rest);
    assert(o.subrange(1, 8) =~= d.subrange(1, 8));
}

/// Removing the metadata of a WebP file keeps it a WebP file.
pub proof fn lemma_webp_delete_keeps_kind(d: Seq<u8>, o: Seq<u8>, extension: Option<Seq<char>>)
    requires
        kind_of(d, extension) == Some(Metadata::Webp),
        webp::webp_delete(d) == Some(Ok::<Seq<u8>, Error>(o)),
    ensures
        kind_of(o, extension) == Some(Metadata::Webp),
{
    let body = webp::kept_entries(d, stream_seek(d.len() as int, 0, 12))->Some_0->Ok_0;
    assert(o =~= webp::header(body.len() as int) + body);
    assert(o.subrange(1, 4) =~= seq![0x49u8, 0x46, 0x46]);
}

/// Removing the metadata of a JPEG file keeps it a JPEG file, wherever at
/// least the eight bytes that tell a file's kind are left.
pub proof fn lemma_jpeg_delete_keeps_kind(d: Seq<u8>, o: Seq<u8>, extension: Option<Seq<char>>)
    requires
        kind_of(d, extension) == Some(Metadata::Jpeg),
        jpeg::jpeg_delete(d) == Some(Ok::<Seq<u8>, Error>(o)),
        o.len() >= 8,
    ensures
        kind_of(o, extension) == Some(Metadata::Jpeg),
{
    assert(d[1] == 0xD8 && d[2] == 0xFF) by {
        assert(d.subrange(1, 3)[0] == d[1] && d.subrange(1, 3)[1] == d[2]);
    }
    assert(jpeg::cut(d, 0) == Some(Ok::<(bool, int), Error>((true, 2))));
    let rest = jpeg::kept_segments(d, 2)->Some_0->Ok_0;
    assert(o =~= d.subrange(0, 2) + rest);
    jpeg::lemma_kept_head(d, 2);
    assert(o.subrange(1, 3) =~= seq![0xD8u8, 0xFF]);
}

/// What `get` reads from what `delete` left of a JPEG, PNG or WebP file is
/// no tag. For a JPEG file, what is left may instead be found cut short,
/// where it ends inside image data; and the law is stated where no
/// start-of-scan header that removal keeps holds a byte that reads as a
/// marker. For JPEG and PNG files it is stated where no size in what is
/// left overflows the reading's arithmetic (a kept chunk or segment of
/// about four gigabytes).
pub proof fn lemma_delete_leaves_nothing<F: Fn(i64, i64) -> String>(kind: Metadata, d: Seq<u8>, o: Seq<u8>, f: F)
    requires
        kind == Metadata::Jpeg || kind == Metadata::Png || kind == Metadata::Webp,
        removal(kind, d) == Some(Ok::<Seq<u8>, Error>(o)),
        kind != Metadata::Webp ==> reading(kind, o, f) is Some,
        kind == Metadata::Jpeg ==> jpeg::plain_scan_headers(d, 0),
    ensures
        reading(kind, o, f) == Some(Ok::<Seq<(Seq<char>, Seq<char>)>, Error>(Seq::empty()))
            || (kind == Metadata::Jpeg && reading(kind, o, f) == Some(Err::<Seq<(Seq<char>, Seq<char>)>, Error>(Error::File))),
{
    match kind {
        Metadata::Jpeg => jpeg::lemma_delete_leaves_nothing(d, o, f),
        Metadata::Png => png::lemma_delete_leaves_nothing(d, o, f),
        Metadata::Webp => webp::lemma_delete_leaves_nothing(d, o, f),
        _ => {},
    }
}

} // verus!
