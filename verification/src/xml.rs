use crate::{
    Error, UNKNOWN,
    text::{chars_of, empty, lossy, owned, same_bytes, trim_ascii, trimmed, utf8_lossy},
};
use quick_xml::events::{BytesStart, Event};
use quick_xml::Error as XmlError;
use vstd::prelude::*;

verus! {

#[verifier::external_type_specification]
#[verifier::external_body]
#[verifier::reject_recursive_types(R)]
pub struct ExXmlReader<R>(quick_xml::Reader<R>);

#[verifier::external_type_specification]
#[verifier::external_body]
pub struct ExXmlEvent<'a>(quick_xml::events::Event<'a>);

#[verifier::external_type_specification]
#[verifier::external_body]
pub struct ExXmlStart<'a>(quick_xml::events::BytesStart<'a>);

#[verifier::external_type_specification]
#[verifier::external_body]
pub struct ExXmlError(XmlError);

/// The kind of an XML event.
#[derive(Debug, Clone, Copy, PartialEq, Eq, Structural)]
pub enum XmlKind {
    /// A start tag.
    Start,
    /// An end tag.
    End,
    /// An empty-element tag.
    Empty,
    /// Character data (still escaped).
    Text,
    /// A comment, a CDATA section, a declaration, a processing instruction
    /// or a document type declaration.
    Other,
    /// The end of the document.
    Eof,
    /// The reader found the document ill-formed.
    Fail,
}

/// An XML event as plain values: its kind; the qualified name of a tag, or
/// the raw bytes of character data; the attributes of a start or
/// empty-element tag (key and raw value) in order, and whether reading them
/// stopped at a malformed one; and the bytes that quick-xml's `Writer`
/// writes for the event.
pub struct XmlToken {
    pub kind: XmlKind,
    pub name: Seq<u8>,
    pub attributes: Seq<(Seq<u8>, Seq<u8>)>,
    pub broken: bool,
    pub written: Seq<u8>,
}

/// An XML event read from a document, as plain values.
pub struct XmlEvent {
    pub kind: XmlKind,
    pub name: Vec<u8>,
    pub attributes: Vec<(Vec<u8>, Vec<u8>)>,
    pub broken: bool,
    pub written: Vec<u8>,
}

impl View for XmlEvent {
    type V = XmlToken;

    open spec fn view(&self) -> XmlToken {
        XmlToken {
            kind: self.kind,
            name: self.name@,
            attributes: self.attributes@.map_values(|p: (Vec<u8>, Vec<u8>)| (p.0@, p.1@)),
            broken: self.broken,
            written: self.written@,
        }
    }
}

/// The event that quick-xml's `Reader::read_event` gives at its `index`-th
/// call on a reader made by `Reader::from_reader` over `data`.
pub uninterp spec fn xml_token(data: Seq<u8>, index: nat) -> XmlToken;

/// A quick-xml reader over a byte slice, with the bytes it reads and how
/// many events it has given.
pub struct XmlReader<'a> {
    reader: quick_xml::Reader<&'a [u8]>,
    data: Ghost<Seq<u8>>,
    size: usize,
    events: u128,
}

impl<'a> XmlReader<'a> {
    /// The reader knows the length of its document and has given at most
    /// one event more than the document has bytes.
    #[verifier::type_invariant]
    spec fn inv(&self) -> bool {
        self.size == self.data@.len() && self.events <= self.size + 1
    }

    /// The document that the reader reads.
    pub closed spec fn data(&self) -> Seq<u8> {
        self.data@
    }

    /// How many events the reader has given.
    pub closed spec fn index(&self) -> nat {
        self.events as nat
    }

    /// A reader at the start of `data`.
    pub fn open(data: &'a [u8]) -> (r: XmlReader<'a>)
        ensures
            r.data() == data@,
            r.index() == 0,
    {
        XmlReader { reader: new_reader(data), data: Ghost(data@), size: data.len(), events: 0 }
    }

    /// Whether the reader has given one event more than its document has
    /// bytes: a well-formed document has ended by then.
    pub fn exhausted(&self) -> (r: bool)
        ensures
            r == (self.index() >= self.data().len() + 1),
            self.index() <= self.data().len() + 1,
    {
        proof {
            use_type_invariant(self);
        }
        self.events >= self.size as u128 + 1
    }

    /// quick-xml's `Reader::read_event`, its result as plain values (an
    /// error as `Fail`). The contract claims what the reader gives is a
    /// function of the document and of how many events it gave before.
    #[verifier::external_body]
    fn read(&mut self) -> (e: XmlEvent)
        ensures
            e@ == xml_token(old(self).data(), old(self).index()),
            final(self).data() == old(self).data(),
            final(self).index() == old(self).index(),
            final(self).size == old(self).size,
    {
        event_of(self.reader.read_event())
    }

    /// The next event of the document.
    pub fn next(&mut self) -> (e: XmlEvent)
        requires
            old(self).index() < old(self).data().len() + 1,
        ensures
            e@ == xml_token(old(self).data(), old(self).index()),
            final(self).data() == old(self).data(),
            final(self).index() == old(self).index() + 1,
    {
        proof {
            use_type_invariant(&*self);
        }
        let e = self.read();
        self.events = self.events + 1;
        e
    }
}

/// A quick-xml reader over a byte slice, made by `Reader::from_reader`
/// with its default configuration.
#[verifier::external_body]
fn new_reader(data: &[u8]) -> quick_xml::Reader<&[u8]> {
    quick_xml::Reader::from_reader(data)
}

/// quick-xml's result for one event, as plain values.
#[verifier::external_body]
fn event_of(event: Result<Event<'_>, XmlError>) -> XmlEvent {
    match event {
        Ok(event) => converted(event),
        Err(_) => plain(XmlKind::Fail, &[], None),
    }
}

/// One of quick-xml's events, as plain values.
#[verifier::external_body]
fn converted(event: Event<'_>) -> XmlEvent {
    match event {
        Event::Start(e) => tag(XmlKind::Start, &e, Event::Start(e.borrow())),
        Event::Empty(e) => tag(XmlKind::Empty, &e, Event::Empty(e.borrow())),
        Event::End(e) => plain(XmlKind::End, e.name().as_ref(), Some(Event::End(e.borrow()))),
        Event::Text(e) => plain(XmlKind::Text, &e, Some(Event::Text(e.borrow()))),
        Event::Eof => plain(XmlKind::Eof, &[], None),
        other => plain(XmlKind::Other, &[], Some(other.borrow())),
    }
}

/// The bytes that quick-xml's `Writer::write_event` writes for an event.
#[verifier::external_body]
fn written(event: Option<Event<'_>>) -> Vec<u8> {
    let mut writer = quick_xml::Writer::new(Vec::new());
    if let Some(event) = event {
        let _ = writer.write_event(event);
    }
    writer.into_inner()
}

/// An event without attributes, as plain values.
#[verifier::external_body]
fn plain(kind: XmlKind, name: &[u8], event: Option<Event<'_>>) -> XmlEvent {
    XmlEvent { kind, name: name.to_vec(), attributes: Vec::new(), broken: false, written: written(event) }
}

/// A start or empty-element tag, its name and attributes as plain values
/// (quick-xml's `BytesStart::name` and `BytesStart::attributes`).
#[verifier::external_body]
fn tag(kind: XmlKind, start: &BytesStart<'_>, event: Event<'_>) -> XmlEvent {
    let mut attributes = Vec::new();
    let mut broken = false;
    for attribute in start.attributes() {
        match attribute {
            Ok(a) => attributes.push((a.key.as_ref().to_vec(), a.value.to_vec())),
            Err(_) => {
                broken = true;
                break;
            },
        }
    }
    XmlEvent { kind, name: start.name().as_ref().to_vec(), attributes, broken, written: written(Some(event)) }
}

/// The position of the first `:` in a text, if any.
pub open spec fn colon(s: Seq<char>) -> Option<int> {
    if exists|i: int| is_first_colon(s, i) {
        Some(choose|i: int| is_first_colon(s, i))
    } else {
        None
    }
}

/// `i` is the position of the first `:` in `s`.
pub open spec fn is_first_colon(s: Seq<char>, i: int) -> bool {
    0 <= i < s.len() && s[i] == ':' && forall|j: int| 0 <= j < i ==> s[j] != ':'
}

/// A qualified name split at its first `:`: the local name and the prefix
/// (empty where there is none).
pub open spec fn split_name(name: Seq<u8>) -> (Seq<char>, Seq<char>) {
    let s = utf8_lossy(name);
    match colon(s) {
        Some(p) => (s.subrange(p + 1, s.len() as int), s.subrange(0, p)),
        None => (s, Seq::empty()),
    }
}

/// A qualified name that has a prefix is its prefix, a colon and its
/// local name.
pub proof fn lemma_split_name_rejoins(name: Seq<u8>)
    requires
        colon(utf8_lossy(name)) is Some,
    ensures
        split_name(name).1 + seq![':'] + split_name(name).0 == utf8_lossy(name),
        !split_name(name).1.contains(':'),
{
    let s = utf8_lossy(name);
    let p = colon(s)->Some_0;
    assert(is_first_colon(s, p));
    assert(s.subrange(0, p) + seq![':'] + s.subrange(p + 1, s.len() as int) =~= s);
}

/// A string made of some characters.
pub fn string_of(chars: &[char]) -> (r: String)
    ensures
        r@ == chars@,
{
    let mut text = empty();
    let mut i: usize = 0;
    while i < chars.len()
        invariant
            i <= chars@.len(),
            text@ == chars@.take(i as int),
        decreases chars@.len() - i,
    {
        text.push(chars[i]);
        i += 1;
        assert(text@ =~= chars@.take(i as int));
    }
    assert(chars@.take(chars@.len() as int) =~= chars@);
    text
}

/// Finds the first `:` in some characters.
pub fn find_colon(chars: &[char]) -> (r: Option<usize>)
    ensures
        match colon(chars@) {
            Some(p) => r == Some(p as usize),
            None => r is None,
        },
{
    let mut i: usize = 0;
    while i < chars.len()
        invariant
            i <= chars@.len(),
            forall|j: int| 0 <= j < i ==> chars@[j] != ':',
        decreases chars@.len() - i,
    {
        if chars[i] == ':' {
            assert(is_first_colon(chars@, i as int));
            let ghost p = choose|p: int| is_first_colon(chars@, p);
            assert(p == i) by {
                if p < i {
                    assert(chars@[p] != ':');
                } else if p > i {
                    assert(chars@[i as int] != ':');
                }
            }
            return Some(i);
        }
        i += 1;
    }
    assert(!exists|p: int| is_first_colon(chars@, p)) by {
        if exists|p: int| is_first_colon(chars@, p) {
            let p = choose|p: int| is_first_colon(chars@, p);
            assert(chars@[p] != ':');
        }
    }
    None
}

/// Splits a qualified name at its first `:` into the local name and the
/// prefix; a name without a prefix gets an empty one.
pub fn parse_name(name: &[u8]) -> (r: (String, String))
    ensures
        (r.0@, r.1@) == split_name(name@),
{
    let text = lossy(name);
    let chars = chars_of(text.as_str());
    let cs = chars.as_slice();
    let n = cs.len();
    match find_colon(cs) {
        Some(p) => {
            proof {
                let q = colon(cs@).unwrap();
                assert(is_first_colon(cs@, q));
            }
            let local = string_of(&cs[p + 1..n]);
            let prefix = string_of(&cs[0..p]);
            (local, prefix)
        },
        None => (text, empty()),
    }
}

/// The namespaces of Office document properties.
#[derive(Debug, Clone, Copy, PartialEq, Eq, Structural)]
pub enum Namespace {
    /// Dublin Core elements.
    Dc,
    /// Dublin Core terms.
    DcTerms,
    /// Core properties.
    CoreProperties,
    /// Extended (application) properties.
    XProperties,
    /// Any other namespace.
    Unknown,
}

/// The position of the first `b` in `s` at or after `from`, if any.
pub open spec fn find_byte(s: Seq<u8>, from: int, b: u8) -> Option<int>
    decreases s.len() - from,
{
    if from >= s.len() || from < 0 {
        None
    } else if s[from] == b {
        Some(from)
    } else {
        find_byte(s, from + 1, b)
    }
}

/// Where a `find_byte` search ends, it found the byte, after none of the
/// bytes before.
proof fn lemma_find_byte(s: Seq<u8>, from: int, b: u8)
    requires
        0 <= from,
    ensures
        match find_byte(s, from, b) {
            Some(i) => from <= i < s.len() && s[i] == b && forall|j: int| from <= j < i ==> s[j] != b,
            None => forall|j: int| from <= j < s.len() ==> s[j] != b,
        },
    decreases s.len() - from,
{
    if from < s.len() && s[from] != b {
        lemma_find_byte(s, from + 1, b);
    }
}

/// Finds the first `b` in `s` at or after `from`.
fn position_of(s: &[u8], from: usize, b: u8) -> (r: Option<usize>)
    requires
        from <= s@.len(),
    ensures
        match r {
            Some(j) => find_byte(s@, from as int, b) == Some(j as int),
            None => find_byte(s@, from as int, b) is None,
        },
{
    let mut i = from;
    proof {
        lemma_find_byte(s@, from as int, b);
    }
    while i < s.len()
        invariant
            from <= i <= s@.len(),
            find_byte(s@, from as int, b) == find_byte(s@, i as int, b),
        decreases s@.len() - i,
    {
        if s[i] == b {
            return Some(i);
        }
        i += 1;
    }
    None
}

/// A copy of some bytes.
pub fn copy_of(bytes: &[u8]) -> (r: Vec<u8>)
    ensures
        r@ == bytes@,
{
    let mut v: Vec<u8> = Vec::new();
    v.extend_from_slice(bytes);
    v
}

/// The bytes "xmlns".
pub const XMLNS: [u8; 5] = [0x78, 0x6D, 0x6C, 0x6E, 0x73];

/// What an attribute declares, where it declares a namespace (its key is
/// `xmlns`, or starts with `xmlns:`): the namespace's name (the attribute's
/// value) and its prefix, the part of the key between the first `:` and
/// the next one, if the key has a `:`.
pub open spec fn namespace_of(key: Seq<u8>, value: Seq<u8>) -> Option<(Seq<u8>, Option<Seq<u8>>)> {
    match find_byte(key, 0, 0x3A) {
        None => if key == XMLNS@ { Some((value, None)) } else { None },
        Some(c) => if key.subrange(0, c) != XMLNS@ {
            None
        } else {
            let end = match find_byte(key, c + 1, 0x3A) {
                Some(e) => e,
                None => key.len() as int,
            };
            Some((value, Some(key.subrange(c + 1, end))))
        },
    }
}

/// Reads an attribute as a namespace declaration: the namespace's name and
/// its prefix, if the attribute declares one.
pub fn parse_namespace(key: &[u8], value: &[u8]) -> (r: Option<(Vec<u8>, Option<Vec<u8>>)>)
    ensures
        match namespace_of(key@, value@) {
            None => r is None,
            Some((space, prefix)) => r matches Some((s, p)) && s@ == space && match prefix {
                None => p is None,
                Some(x) => p matches Some(y) && y@ == x,
            },
        },
{
    proof {
        lemma_find_byte(key@, 0, 0x3Au8);
    }
    match position_of(key, 0, 0x3A) {
        None => {
            if same_bytes(key, XMLNS.as_slice()) {
                Some((copy_of(value), None))
            } else {
                None
            }
        },
        Some(c) => {
            let size = key.len();
            assert(c < size);
            if !same_bytes(&key[0..c], XMLNS.as_slice()) {
                return None;
            }
            let end = match position_of(key, c + 1, 0x3A) {
                Some(e) => e,
                None => key.len(),
            };
            proof {
                lemma_find_byte(key@, c + 1, 0x3Au8);
            }
            Some((copy_of(value), Some(copy_of(&key[c + 1..end]))))
        },
    }
}

/// Skipping the rest of the elements in `stack` (innermost last), reading
/// from the `k`-th event of `d`: where reading goes on, or the error for a
/// document that is ill-formed or ends first.
pub open spec fn skip_to(d: Seq<u8>, k: int, stack: Seq<Seq<u8>>) -> Result<int, Error>
    decreases d.len() + 1 - k,
{
    if stack.len() == 0 {
        Ok(k)
    } else if k >= d.len() + 1 || k < 0 {
        Err(Error::Metadata)
    } else {
        let t = xml_token(d, k as nat);
        if t.kind == XmlKind::End && t.name == stack.last() {
            skip_to(d, k + 1, stack.drop_last())
        } else if t.kind == XmlKind::End || t.kind == XmlKind::Eof || t.kind == XmlKind::Fail {
            Err(Error::Metadata)
        } else if t.kind == XmlKind::Start {
            skip_to(d, k + 1, stack.push(t.name))
        } else {
            skip_to(d, k + 1, stack)
        }
    }
}

/// Skipping goes forward, and no further than one event past the end.
pub proof fn lemma_skip_advances(d: Seq<u8>, k: int, stack: Seq<Seq<u8>>)
    requires
        0 <= k <= d.len() + 1,
        skip_to(d, k, stack) is Ok,
    ensures
        k <= skip_to(d, k, stack)->Ok_0 <= d.len() + 1,
        stack.len() > 0 ==> k < skip_to(d, k, stack)->Ok_0,
    decreases d.len() + 1 - k,
{
    if stack.len() > 0 {
        let t = xml_token(d, k as nat);
        if t.kind == XmlKind::End && t.name == stack.last() {
            lemma_skip_advances(d, k + 1, stack.drop_last());
        } else if t.kind == XmlKind::Start {
            lemma_skip_advances(d, k + 1, stack.push(t.name));
        } else {
            lemma_skip_advances(d, k + 1, stack);
        }
    }
}

/// The names of open elements as plain values.
pub open spec fn names_view(stack: Seq<Vec<u8>>) -> Seq<Seq<u8>> {
    stack.map_values(|n: Vec<u8>| n@)
}

/// Skips the rest of the element named `name`, whose start tag was just
/// read, nested elements included.
pub fn skip(reader: &mut XmlReader, name: &[u8]) -> (r: Result<(), Error>)
    ensures
        final(reader).data() == old(reader).data(),
        match skip_to(old(reader).data(), old(reader).index() as int, seq![name@]) {
            Err(e) => r == Err::<(), Error>(e),
            Ok(k) => r is Ok && final(reader).index() == k,
        },
{
    let ghost d = reader.data();
    let ghost k0 = reader.index() as int;
    let mut stack: Vec<Vec<u8>> = Vec::new();
    stack.push(copy_of(name));
    assert(names_view(stack@) =~= seq![name@]);
    loop
        invariant
            reader.data() == d,
            d == old(reader).data(),
            k0 == old(reader).index(),
            skip_to(d, k0, seq![name@]) == skip_to(d, reader.index() as int, names_view(stack@)),
        decreases d.len() + 1 - reader.index(),
    {
        let n = stack.len();
        if n == 0 {
            return Ok(());
        }
        if reader.exhausted() {
            return Err(Error::Metadata);
        }
        let event = reader.next();
        let ghost before = names_view(stack@);
        match event.kind {
            XmlKind::End => {
                if same_bytes(event.name.as_slice(), stack[n - 1].as_slice()) {
                    stack.pop();
                    assert(names_view(stack@) =~= before.drop_last());
                } else {
                    return Err(Error::Metadata);
                }
            },
            XmlKind::Eof | XmlKind::Fail => {
                return Err(Error::Metadata);
            },
            XmlKind::Start => {
                let ghost added = event.name@;
                stack.push(event.name);
                assert(names_view(stack@) =~= before.push(added));
            },
            _ => {},
        }
    }
}

/// The text of the element named `name`, reading from the `k`-th event of
/// `d`, with the text met so far and whether anything but one piece of text
/// was met: that text with its ASCII whitespace trimmed (nothing where there
/// is none), or `Unknown` where anything else was met; and where reading
/// goes on. The error for a document that is ill-formed or ends first.
pub open spec fn string_from(d: Seq<u8>, k: int, name: Seq<u8>, value: Option<Seq<char>>, unknown: bool) -> Result<(Seq<char>, int), Error>
    decreases d.len() + 1 - k,
{
    if k >= d.len() + 1 || k < 0 {
        Err(Error::Metadata)
    } else {
        let t = xml_token(d, k as nat);
        if t.kind == XmlKind::End && t.name == name {
            Ok((if unknown { UNKNOWN@ } else { match value { Some(v) => v, None => Seq::empty() } }, k + 1))
        } else if t.kind == XmlKind::End || t.kind == XmlKind::Eof || t.kind == XmlKind::Fail {
            Err(Error::Metadata)
        } else if t.kind == XmlKind::Start {
            match skip_to(d, k + 1, seq![t.name]) {
                Err(e) => Err(e),
                Ok(k2) => {
                    proof {
                        lemma_skip_advances(d, k + 1, seq![t.name]);
                    }
                    string_from(d, k2, name, value, true)
                },
            }
        } else if t.kind == XmlKind::Text && value is None {
            string_from(d, k + 1, name, Some(trimmed(utf8_lossy(t.name))), unknown)
        } else {
            string_from(d, k + 1, name, value, true)
        }
    }
}

/// Reading a text goes forward, and no further than one event past the end.
pub proof fn lemma_string_advances(d: Seq<u8>, k: int, name: Seq<u8>, value: Option<Seq<char>>, unknown: bool)
    requires
        0 <= k,
        string_from(d, k, name, value, unknown) is Ok,
    ensures
        k < string_from(d, k, name, value, unknown)->Ok_0.1 <= d.len() + 1,
    decreases d.len() + 1 - k,
{
    let t = xml_token(d, k as nat);
    if t.kind == XmlKind::End && t.name == name {
    } else if t.kind == XmlKind::Start {
        lemma_skip_advances(d, k + 1, seq![t.name]);
        lemma_string_advances(d, skip_to(d, k + 1, seq![t.name])->Ok_0, name, value, true);
    } else if t.kind == XmlKind::Text && value is None {
        lemma_string_advances(d, k + 1, name, Some(trimmed(utf8_lossy(t.name))), unknown);
    } else {
        lemma_string_advances(d, k + 1, name, value, true);
    }
}

/// Reads the text of the element named `name`, whose start tag was just
/// read: its text with ASCII whitespace trimmed, nothing where it has none,
/// or `Unknown` where it holds anything but one piece of text.
pub fn parse_string(reader: &mut XmlReader, name: &[u8]) -> (r: Result<String, Error>)
    ensures
        final(reader).data() == old(reader).data(),
        match string_from(old(reader).data(), old(reader).index() as int, name@, None, false) {
            Err(e) => r == Err::<String, Error>(e),
            Ok((v, k)) => r matches Ok(s) && s@ == v && final(reader).index() == k,
        },
{
    let ghost d = reader.data();
    let ghost k0 = reader.index() as int;
    let mut value: Option<String> = None;
    let mut unknown = false;
    loop
        invariant
            reader.data() == d,
            d == old(reader).data(),
            k0 == old(reader).index(),
            string_from(d, k0, name@, None, false) == string_from(d, reader.index() as int, name@, match value {
                Some(v) => Some(v@),
                None => None,
            }, unknown),
        decreases d.len() + 1 - reader.index(),
    {
        if reader.exhausted() {
            return Err(Error::Metadata);
        }
        let ghost k = reader.index() as int;
        let event = reader.next();
        match event.kind {
            XmlKind::End => {
                if same_bytes(event.name.as_slice(), name) {
                    if unknown {
                        return Ok(owned(UNKNOWN));
                    }
                    return match value {
                        Some(v) => Ok(v),
                        None => Ok(empty()),
                    };
                }
                return Err(Error::Metadata);
            },
            XmlKind::Eof | XmlKind::Fail => {
                return Err(Error::Metadata);
            },
            XmlKind::Start => {
                unknown = true;
                skip(reader, event.name.as_slice())?;
                proof {
                    lemma_skip_advances(d, k + 1, seq![event.name@]);
                }
            },
            XmlKind::Text => {
                if value.is_none() {
                    let text = lossy(event.name.as_slice());
                    value = Some(trim_ascii(&text));
                } else {
                    unknown = true;
                }
            },
            _ => {
                unknown = true;
            },
        }
    }
}

/// The namespace that a prefix stands for among the namespaces known (each
/// with its prefix): the first that has it, or `Unknown`.
pub open spec fn namespace_for(namespaces: Seq<(Namespace, Seq<char>)>, prefix: Seq<char>) -> Namespace
    decreases namespaces.len(),
{
    if namespaces.len() == 0 {
        Namespace::Unknown
    } else if namespaces[0].1 == prefix {
        namespaces[0].0
    } else {
        namespace_for(namespaces.drop_first(), prefix)
    }
}

/// The known namespaces as plain values.
pub open spec fn namespaces_view(namespaces: Seq<(Namespace, String)>) -> Seq<(Namespace, Seq<char>)> {
    namespaces.map_values(|n: (Namespace, String)| (n.0, n.1@))
}

/// An extended property whose value is a structure, reported as `Unknown`.
pub open spec fn structured(name: Seq<char>) -> bool {
    name == "DigSig"@ || name == "HLinks"@ || name == "Properties"@ || name == "TitlesOfParts"@
}

/// The property whose start tag, named `start`, was just read as the
/// `k`-th event: its local name and value, and where reading goes on; or
/// the error.
pub open spec fn property(d: Seq<u8>, k: int, start: Seq<u8>, namespaces: Seq<(Namespace, Seq<char>)>) -> Result<((Seq<char>, Seq<char>), int), Error> {
    let (name, prefix) = split_name(start);
    if namespace_for(namespaces, prefix) == Namespace::XProperties && structured(name) {
        match skip_to(d, k, seq![start]) {
            Err(e) => Err(e),
            Ok(k2) => Ok(((name, UNKNOWN@), k2)),
        }
    } else {
        match string_from(d, k, start, None, false) {
            Err(e) => Err(e),
            Ok((v, k2)) => Ok(((name, v), k2)),
        }
    }
}

/// Finds the namespace that a prefix stands for.
fn find_namespace(namespaces: &[(Namespace, String)], prefix: &String) -> (r: Namespace)
    ensures
        r == namespace_for(namespaces_view(namespaces@), prefix@),
{
    let mut i: usize = 0;
    assert(namespaces_view(namespaces@).skip(0) =~= namespaces_view(namespaces@));
    while i < namespaces.len()
        invariant
            i <= namespaces@.len(),
            namespace_for(namespaces_view(namespaces@), prefix@) == namespace_for(namespaces_view(namespaces@).skip(i as int), prefix@),
        decreases namespaces@.len() - i,
    {
        let ghost rest = namespaces_view(namespaces@).skip(i as int);
        assert(rest.drop_first() =~= namespaces_view(namespaces@).skip(i + 1));
        if namespaces[i].1 == *prefix {
            return namespaces[i].0;
        }
        i += 1;
    }
    Namespace::Unknown
}

/// Reads a property whose start tag was just read: its local name and its
/// value (`Unknown` for a structured extended property, which is skipped).
pub fn parse_start(reader: &mut XmlReader, start: &[u8], namespaces: &[(Namespace, String)]) -> (r: Result<(String, String), Error>)
    ensures
        final(reader).data() == old(reader).data(),
        match property(old(reader).data(), old(reader).index() as int, start@, namespaces_view(namespaces@)) {
            Err(e) => r == Err::<(String, String), Error>(e),
            Ok(((n, v), k)) => r matches Ok((a, b)) && a@ == n && b@ == v && final(reader).index() == k,
        },
{
    let (name, prefix) = parse_name(start);
    let namespace = find_namespace(namespaces, &prefix);
    if namespace == Namespace::XProperties && (name == owned("DigSig") || name == owned("HLinks") || name == owned("Properties") || name == owned("TitlesOfParts")) {
        skip(reader, start)?;
        Ok((name, owned(UNKNOWN)))
    } else {
        let value = parse_string(reader, start)?;
        Ok((name, value))
    }
}

} // verus!
