use crate::{
    Error, Tag, view_tags, push_tag, lemma_pushed_view,
    metadata::xmp::{self, xmp},
    text::{empty, lossy, owned, signed_decimal, signed_text, utf8_lossy},
};
use vstd::prelude::*;
use vstd::string::StringSliceAdditionalSpecFns;

verus! {

#[verifier::external_type_specification]
#[verifier::external_body]
pub struct ExPdfDocument(lopdf::Document);

#[verifier::external_type_specification]
#[verifier::external_body]
pub struct ExPdfObject(lopdf::Object);

/// A value of a PDF information dictionary, as plain values: a real number
/// as lopdf's `f32` prints it.
pub enum InfoValue {
    Boolean(bool),
    Integer(i64),
    Name(Vec<u8>),
    Real(String),
    Text(Vec<u8>),
    Other,
}

/// A value of a PDF information dictionary, as spec values.
pub enum InfoItem {
    Boolean(bool),
    Integer(int),
    Name(Seq<u8>),
    Real(Seq<char>),
    Text(Seq<u8>),
    Other,
}

impl View for InfoValue {
    type V = InfoItem;

    open spec fn view(&self) -> InfoItem {
        match self {
            InfoValue::Boolean(b) => InfoItem::Boolean(*b),
            InfoValue::Integer(n) => InfoItem::Integer(*n as int),
            InfoValue::Name(v) => InfoItem::Name(v@),
            InfoValue::Real(t) => InfoItem::Real(t@),
            InfoValue::Text(v) => InfoItem::Text(v@),
            InfoValue::Other => InfoItem::Other,
        }
    }
}

/// One change made to a loaded PDF document before it is saved again.
pub enum PdfEdit {
    /// An entry removed from the trailer.
    RemoveTrailer(Seq<u8>),
    /// An entry removed from the document catalog, where there is one.
    RemoveCatalog(Seq<u8>),
    /// Objects that nothing refers to removed (lopdf's `prune_objects`).
    Prune,
    /// Objects numbered again from one (lopdf's `renumber_objects`).
    Renumber,
}

/// Whether lopdf's `Document::load_mem` loads a document from some bytes;
/// where `filtered`, loading with `sift` as the object filter.
pub uninterp spec fn pdf_opens(data: Seq<u8>, filtered: bool) -> bool;

/// Whether the document loaded from some bytes is encrypted (lopdf's
/// `Document::is_encrypted`).
pub uninterp spec fn pdf_encrypted(data: Seq<u8>, filtered: bool) -> bool;

/// Whether lopdf could decrypt the document loaded from some bytes (its
/// `encryption_state` is set).
pub uninterp spec fn pdf_decrypted(data: Seq<u8>, filtered: bool) -> bool;

/// The name in the trailer's `DocChecksum` entry of the document loaded
/// from some bytes, where there is one.
pub uninterp spec fn pdf_checksum(data: Seq<u8>) -> Option<Seq<u8>>;

/// The entries of the information dictionary that the trailer's `Info`
/// entry refers to, in order, where there is one.
pub uninterp spec fn pdf_info(data: Seq<u8>) -> Option<Seq<(Seq<u8>, InfoItem)>>;

/// The decoded contents of the metadata stream that the catalog's
/// `Metadata` entry refers to, where there is one and it decodes.
pub uninterp spec fn pdf_xmp(data: Seq<u8>) -> Option<Seq<u8>>;

/// What lopdf's `Document::save_to` writes after loading some bytes and
/// making some edits, or `None` where it fails.
pub uninterp spec fn pdf_saved(data: Seq<u8>, filtered: bool, edits: Seq<PdfEdit>) -> Option<Seq<u8>>;

/// The type of an object as lopdf reads it: `Dictionary::get_type` of a
/// dictionary or of a stream's dictionary (the `Type` entry where it is a
/// name), nothing for any other object.
pub uninterp spec fn pdf_type(object: lopdf::Object) -> Option<Seq<u8>>;

/// An object with an entry removed from its dictionary, or from its
/// stream's dictionary (lopdf's `Dictionary::remove`); any other object
/// stays as it is.
pub uninterp spec fn pdf_without(object: lopdf::Object, key: Seq<u8>) -> lopdf::Object;

/// A PDF document loaded by lopdf, with the bytes it was loaded from,
/// whether objects went through `sift`, and the edits made since.
pub struct PdfDocument {
    document: lopdf::Document,
    source: Ghost<Seq<u8>>,
    filtered: Ghost<bool>,
    edits: Ghost<Seq<PdfEdit>>,
}

impl PdfDocument {
    /// The bytes the document was loaded from.
    pub closed spec fn source(&self) -> Seq<u8> {
        self.source@
    }

    /// Whether the objects went through `sift` as they were loaded.
    pub closed spec fn filtered(&self) -> bool {
        self.filtered@
    }

    /// The edits made since the document was loaded.
    pub closed spec fn edits(&self) -> Seq<PdfEdit> {
        self.edits@
    }

    /// Loads a document (lopdf's `Document::load_mem`).
    #[verifier::external_body]
    pub fn open(data: &[u8]) -> (r: Option<PdfDocument>)
        ensures
            (r is Some) == pdf_opens(data@, false),
            r matches Some(d) ==> d.source() == data@ && !d.filtered() && d.edits() == Seq::<PdfEdit>::empty(),
    {
        match lopdf::Document::load_mem(data) {
            Ok(document) => Some(PdfDocument { document, source: Ghost(data@), filtered: Ghost(false), edits: Ghost(Seq::empty()) }),
            Err(_) => None,
        }
    }

    /// Loads a document, each object going through `sift` (lopdf's
    /// `Document::load_mem_with_options` with `LoadOptions::with_filter`).
    #[verifier::external_body]
    pub fn open_sifted(data: &[u8]) -> (r: Option<PdfDocument>)
        ensures
            (r is Some) == pdf_opens(data@, true),
            r matches Some(d) ==> d.source() == data@ && d.filtered() && d.edits() == Seq::<PdfEdit>::empty(),
    {
        match lopdf::Document::load_mem_with_options(data, lopdf::LoadOptions::with_filter(sift)) {
            Ok(document) => Some(PdfDocument { document, source: Ghost(data@), filtered: Ghost(true), edits: Ghost(Seq::empty()) }),
            Err(_) => None,
        }
    }

    /// Whether the document is encrypted (lopdf's `Document::is_encrypted`).
    #[verifier::external_body]
    pub fn encrypted(&self) -> (r: bool)
        requires
            self.edits() == Seq::<PdfEdit>::empty(),
        ensures
            r == pdf_encrypted(self.source(), self.filtered()),
    {
        self.document.is_encrypted()
    }

    /// Whether lopdf could decrypt the document (its `encryption_state`).
    #[verifier::external_body]
    pub fn decrypted(&self) -> (r: bool)
        requires
            self.edits() == Seq::<PdfEdit>::empty(),
        ensures
            r == pdf_decrypted(self.source(), self.filtered()),
    {
        self.document.encryption_state.is_some()
    }

    /// The name in the trailer's `DocChecksum` entry.
    #[verifier::external_body]
    pub fn checksum(&self) -> (r: Option<Vec<u8>>)
        requires
            !self.filtered(),
            self.edits() == Seq::<PdfEdit>::empty(),
        ensures
            match r {
                Some(v) => pdf_checksum(self.source()) == Some(v@),
                None => pdf_checksum(self.source()) is None,
            },
    {
        match self.document.trailer.get(b"DocChecksum").and_then(lopdf::Object::as_name) {
            Ok(name) => Some(name.to_vec()),
            Err(_) => None,
        }
    }

    /// The entries of the information dictionary, as plain values.
    #[verifier::external_body]
    pub fn info(&self) -> (r: Option<Vec<(Vec<u8>, InfoValue)>>)
        requires
            !self.filtered(),
            self.edits() == Seq::<PdfEdit>::empty(),
        ensures
            match r {
                Some(v) => pdf_info(self.source()) == Some(v@.map_values(|e: (Vec<u8>, InfoValue)| (e.0@, e.1@))),
                None => pdf_info(self.source()) is None,
            },
    {
        let dictionary = self.document.trailer.get(b"Info")
            .and_then(lopdf::Object::as_reference)
            .and_then(|reference| self.document.get_object(reference))
            .and_then(lopdf::Object::as_dict);
        match dictionary {
            Ok(d) => Some(d.iter().map(|(k, v)| (k.clone(), info_value(v))).collect()),
            Err(_) => None,
        }
    }

    /// The decoded contents of the catalog's metadata stream.
    #[verifier::external_body]
    pub fn xmp_packet(&self) -> (r: Option<Vec<u8>>)
        requires
            !self.filtered(),
            self.edits() == Seq::<PdfEdit>::empty(),
        ensures
            match r {
                Some(v) => pdf_xmp(self.source()) == Some(v@),
                None => pdf_xmp(self.source()) is None,
            },
    {
        self.document.catalog()
            .and_then(|catalog| catalog.get(b"Metadata"))
            .and_then(lopdf::Object::as_reference)
            .and_then(|reference| self.document.get_object(reference))
            .and_then(lopdf::Object::as_stream)
            .and_then(lopdf::Stream::get_plain_content)
            .ok()
    }

    /// Removes an entry from the trailer (lopdf's `Dictionary::remove` on
    /// the document's trailer), and records the edit.
    #[verifier::external_body]
    pub fn remove_trailer(&mut self, key: &str)
        ensures
            final(self).source() == old(self).source(),
            final(self).filtered() == old(self).filtered(),
            final(self).edits() == old(self).edits().push(PdfEdit::RemoveTrailer(key.spec_bytes())),
    {
        self.document.trailer.remove(key.as_bytes());
        self.edits = Ghost(self.edits@.push(PdfEdit::RemoveTrailer(key.spec_bytes())));
    }

    /// Removes an entry from the catalog, where there is one (lopdf's
    /// `Document::catalog_mut` and `Dictionary::remove`), and records the
    /// edit.
    #[verifier::external_body]
    pub fn remove_catalog(&mut self, key: &str)
        ensures
            final(self).source() == old(self).source(),
            final(self).filtered() == old(self).filtered(),
            final(self).edits() == old(self).edits().push(PdfEdit::RemoveCatalog(key.spec_bytes())),
    {
        if let Ok(catalog) = self.document.catalog_mut() {
            catalog.remove(key.as_bytes());
        }
        self.edits = Ghost(self.edits@.push(PdfEdit::RemoveCatalog(key.spec_bytes())));
    }

    /// Removes the objects that nothing refers to (lopdf's
    /// `Document::prune_objects`), and records the edit.
    #[verifier::external_body]
    pub fn prune(&mut self)
        ensures
            final(self).source() == old(self).source(),
            final(self).filtered() == old(self).filtered(),
            final(self).edits() == old(self).edits().push(PdfEdit::Prune),
    {
        self.document.prune_objects();
        self.edits = Ghost(self.edits@.push(PdfEdit::Prune));
    }

    /// Numbers the objects again from one (lopdf's
    /// `Document::renumber_objects`), and records the edit.
    #[verifier::external_body]
    pub fn renumber(&mut self)
        ensures
            final(self).source() == old(self).source(),
            final(self).filtered() == old(self).filtered(),
            final(self).edits() == old(self).edits().push(PdfEdit::Renumber),
    {
        self.document.renumber_objects();
        self.edits = Ghost(self.edits@.push(PdfEdit::Renumber));
    }

    /// Writes the document (lopdf's `Document::save_to` into memory).
    #[verifier::external_body]
    pub fn save(&mut self) -> (r: Option<Vec<u8>>)
        ensures
            match r {
                Some(v) => pdf_saved(old(self).source(), old(self).filtered(), old(self).edits()) == Some(v@),
                None => pdf_saved(old(self).source(), old(self).filtered(), old(self).edits()) is None,
            },
    {
        let mut out = Vec::new();
        match self.document.save_to(&mut out) {
            Ok(()) => Some(out),
            Err(_) => None,
        }
    }
}

/// A value of an information dictionary as plain values (lopdf's `Object`
/// variants; a real number printed by `f32`'s `to_string`).
#[verifier::external_body]
fn info_value(value: &lopdf::Object) -> InfoValue {
    match value {
        lopdf::Object::Boolean(b) => InfoValue::Boolean(*b),
        lopdf::Object::Integer(n) => InfoValue::Integer(*n),
        lopdf::Object::Name(v) => InfoValue::Name(v.clone()),
        lopdf::Object::Real(f) => InfoValue::Real(f.to_string()),
        lopdf::Object::String(v, _) => InfoValue::Text(v.clone()),
        _ => InfoValue::Other,
    }
}

/// The type of an object: lopdf's `Dictionary::get_type` of a dictionary
/// or of a stream's dictionary, named by `pdf_type`.
#[verifier::external_body]
fn type_of(object: &lopdf::Object) -> (r: Option<Vec<u8>>)
    ensures
        match r {
            Some(v) => pdf_type(*object) == Some(v@),
            None => pdf_type(*object) is None,
        },
{
    let dictionary = match object {
        lopdf::Object::Dictionary(dictionary) => dictionary,
        lopdf::Object::Stream(stream) => &stream.dict,
        _ => return None,
    };
    match dictionary.get_type() {
        Ok(name) => Some(name.to_vec()),
        Err(_) => None,
    }
}

/// Removes an entry from an object's dictionary, or from its stream's
/// dictionary (lopdf's `Object::as_dict_mut`, `Object::as_stream_mut` and
/// `Dictionary::remove`), named by `pdf_without`.
#[verifier::external_body]
fn strip(object: &mut lopdf::Object, key: &[u8])
    ensures
        *final(object) == pdf_without(*old(object), key@),
{
    match object {
        lopdf::Object::Dictionary(dictionary) => { dictionary.remove(key); },
        lopdf::Object::Stream(stream) => { stream.dict.remove(key); },
        _ => {},
    }
}

/// A copy of an object (lopdf's `Object::clone`).
#[verifier::external_body]
fn copy_object(object: &lopdf::Object) -> (r: lopdf::Object)
    ensures
        r == *object,
{
    object.clone()
}

/// The types of objects that removing metadata drops: time stamps,
/// metadata streams and signatures.
pub open spec fn dropped_type(t: Option<Seq<u8>>) -> bool {
    t == Some("DocTimeStamp".spec_bytes()) || t == Some("Metadata".spec_bytes()) || t == Some("Sig".spec_bytes())
}

/// An object as removing metadata keeps it: without the entries
/// `LastModified`, `Metadata` and `PieceInfo`.
pub open spec fn stripped(object: lopdf::Object) -> lopdf::Object {
    pdf_without(pdf_without(pdf_without(object, "LastModified".spec_bytes()), "Metadata".spec_bytes()), "PieceInfo".spec_bytes())
}

/// Whether a type is one whose objects removing metadata drops.
fn is_dropped_type(t: &[u8]) -> (r: bool)
    ensures
        r == dropped_type(Some(t@)),
{
    crate::text::same_bytes(t, "DocTimeStamp".as_bytes()) || crate::text::same_bytes(t, "Metadata".as_bytes())
        || crate::text::same_bytes(t, "Sig".as_bytes())
}

/// The object filter that removing metadata loads a document with: drops
/// time stamps, metadata streams and signatures, and takes the entries
/// `LastModified`, `Metadata` and `PieceInfo` out of every other object.
pub fn sift(id: (u32, u16), object: &mut lopdf::Object) -> (r: Option<((u32, u16), lopdf::Object)>)
    ensures
        dropped_type(pdf_type(*old(object))) ==> r is None && *final(object) == *old(object),
        !dropped_type(pdf_type(*old(object))) ==> r == Some((id, stripped(*old(object)))) && *final(object) == stripped(*old(object)),
{
    let dropped = match type_of(object) {
        Some(t) => is_dropped_type(t.as_slice()),
        None => false,
    };
    if dropped {
        return None;
    }
    strip(object, "LastModified".as_bytes());
    strip(object, "Metadata".as_bytes());
    strip(object, "PieceInfo".as_bytes());
    Some((id, copy_object(object)))
}

/// The text a value of an information dictionary is reported as.
pub open spec fn info_text(value: InfoItem) -> Seq<char> {
    match value {
        InfoItem::Boolean(b) => if b { "true"@ } else { "false"@ },
        InfoItem::Integer(n) => signed_decimal(n),
        InfoItem::Name(v) => utf8_lossy(v),
        InfoItem::Real(t) => t,
        InfoItem::Text(v) => utf8_lossy(v),
        InfoItem::Other => Seq::empty(),
    }
}

/// The tags of an information dictionary's entries.
pub open spec fn info_tags(entries: Seq<(Seq<u8>, InfoItem)>) -> Seq<(Seq<char>, Seq<char>)> {
    entries.map_values(|e: (Seq<u8>, InfoItem)| (utf8_lossy(e.0), info_text(e.1)))
}

/// Reading a PDF document: the document checksum, the entries of the
/// information dictionary and the tags of the XMP packet, or the error.
pub open spec fn pdf(d: Seq<u8>) -> Result<Seq<(Seq<char>, Seq<char>)>, Error> {
    if !pdf_opens(d, false) {
        Err(Error::File)
    } else if pdf_encrypted(d, false) && !pdf_decrypted(d, false) {
        Err(Error::Encryption)
    } else {
        let checksum = match pdf_checksum(d) {
            Some(c) => seq![("DocChecksum"@, utf8_lossy(c))],
            None => Seq::empty(),
        };
        let info = match pdf_info(d) {
            Some(entries) => info_tags(entries),
            None => Seq::empty(),
        };
        let packet = match pdf_xmp(d) {
            Some(x) => xmp(x).0,
            None => Seq::empty(),
        };
        Ok(checksum + info + packet)
    }
}

/// The text a value of an information dictionary is reported as.
fn value_text(value: &InfoValue) -> (r: String)
    ensures
        r@ == info_text(value@),
{
    let r = match value {
        InfoValue::Boolean(b) => if *b { owned("true") } else { owned("false") },
        InfoValue::Integer(n) => signed_text(*n),
        InfoValue::Name(v) => lossy(v.as_slice()),
        InfoValue::Real(t) => owned(t.as_str()),
        InfoValue::Text(v) => lossy(v.as_slice()),
        InfoValue::Other => empty(),
    };
    r
}

/// Reads the metadata of a PDF document: the document checksum, the
/// information dictionary and the XMP packet of the catalog's metadata
/// stream (an error in the packet is passed over, its tags read until then
/// kept).
pub fn get(data: &[u8]) -> (r: Result<Vec<Tag>, Error>)
    ensures
        match pdf(data@) {
            Ok(tags) => r matches Ok(v) && view_tags(v@) == tags,
            Err(e) => r == Err::<Vec<Tag>, Error>(e),
        },
{
    let ghost d = data@;
    let document = match PdfDocument::open(data) {
        Some(document) => document,
        None => return Err(Error::File),
    };
    if document.encrypted() && !document.decrypted() {
        return Err(Error::Encryption);
    }
    let mut metadata: Vec<Tag> = Vec::new();
    assert(view_tags(metadata@) =~= Seq::<(Seq<char>, Seq<char>)>::empty());
    if let Some(checksum) = document.checksum() {
        push_tag(&mut metadata, owned("DocChecksum"), lossy(checksum.as_slice()));
    }
    let ghost after_checksum = view_tags(metadata@);
    if let Some(entries) = document.info() {
        let ghost ev = entries@.map_values(|e: (Vec<u8>, InfoValue)| (e.0@, e.1@));
        let mut i: usize = 0;
        while i < entries.len()
            invariant
                i <= entries@.len(),
                ev == entries@.map_values(|e: (Vec<u8>, InfoValue)| (e.0@, e.1@)),
                view_tags(metadata@) == after_checksum + info_tags(ev.take(i as int)),
            decreases entries@.len() - i,
        {
            let name = lossy(entries[i].0.as_slice());
            let value = value_text(&entries[i].1);
            let ghost before = view_tags(metadata@);
            push_tag(&mut metadata, name, value);
            assert(info_tags(ev.take(i + 1)) =~= info_tags(ev.take(i as int)).push((utf8_lossy(ev[i as int].0), info_text(ev[i as int].1))));
            assert(view_tags(metadata@) =~= after_checksum + info_tags(ev.take(i + 1)));
            i += 1;
        }
        assert(ev.take(entries@.len() as int) =~= ev);
    } else {
        assert(after_checksum + Seq::<(Seq<char>, Seq<char>)>::empty() =~= after_checksum);
    }
    let ghost after_info = view_tags(metadata@);
    if let Some(packet) = document.xmp_packet() {
        let ghost before = metadata@;
        let _ = xmp::get(packet.as_slice(), &mut metadata);
        proof {
            lemma_pushed_view(metadata@, before, xmp(packet@).0);
        }
    } else {
        assert(after_info + Seq::<(Seq<char>, Seq<char>)>::empty() =~= after_info);
    }
    Ok(metadata)
}

/// The edits that removing metadata makes to a loaded document: the
/// trailer's checksum and information dictionary, the catalog's language,
/// legal, permissions and web capture entries, then unused objects, then the
/// numbering.
pub open spec fn cleaning() -> Seq<PdfEdit> {
    seq![
        PdfEdit::RemoveTrailer("DocChecksum".spec_bytes()),
        PdfEdit::RemoveTrailer("Info".spec_bytes()),
        PdfEdit::RemoveCatalog("Lang".spec_bytes()),
        PdfEdit::RemoveCatalog("Legal".spec_bytes()),
        PdfEdit::RemoveCatalog("Perms".spec_bytes()),
        PdfEdit::RemoveCatalog("SpiderInfo".spec_bytes()),
        PdfEdit::Prune,
        PdfEdit::Renumber,
    ]
}

/// Removing the metadata of a PDF document: the document loaded through
/// `sift`, cleaned and saved again, or the error.
pub open spec fn pdf_delete(d: Seq<u8>) -> Result<Seq<u8>, Error> {
    if !pdf_opens(d, true) {
        Err(Error::File)
    } else if pdf_encrypted(d, true) && !pdf_decrypted(d, true) {
        Err(Error::Encryption)
    } else {
        match pdf_saved(d, true, cleaning()) {
            Some(o) => Ok(o),
            None => Err(Error::File),
        }
    }
}

/// Removes the metadata of a PDF document: loads it dropping time stamps,
/// metadata streams and signatures (see `sift`), takes the checksum and the
/// information dictionary out of the trailer and the language, legal,
/// permissions and web capture entries out of the catalog, drops unused
/// objects, numbers the objects again and saves the document.
pub fn delete(data: &[u8]) -> (r: Result<Vec<u8>, Error>)
    ensures
        match pdf_delete(data@) {
            Ok(o) => r matches Ok(v) && v@ == o,
            Err(e) => r == Err::<Vec<u8>, Error>(e),
        },
{
    let mut document = match PdfDocument::open_sifted(data) {
        Some(document) => document,
        None => return Err(Error::File),
    };
    if document.encrypted() && !document.decrypted() {
        return Err(Error::Encryption);
    }
    document.remove_trailer("DocChecksum");
    document.remove_trailer("Info");
    document.remove_catalog("Lang");
    document.remove_catalog("Legal");
    document.remove_catalog("Perms");
    document.remove_catalog("SpiderInfo");
    document.prune();
    document.renumber();
    assert(document.edits() =~= cleaning());
    match document.save() {
        Some(out) => Ok(out),
        None => Err(Error::File),
    }
}

} // verus!
