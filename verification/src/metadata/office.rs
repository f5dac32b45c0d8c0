use crate::{
    Error, Tag, pushed, push_pushed, lemma_pushed_none, lemma_pushed_trans,
    metadata::xmp::before,
    text::{empty, lossy, owned, same_bytes, utf8_lossy},
    xml::{
        Namespace, XmlKind, XmlReader, lemma_skip_advances, lemma_string_advances, namespace_of,
        namespaces_view, parse_name, parse_namespace, parse_start, property, skip, skip_to,
        split_name, xml_token,
    },
};
use vstd::prelude::*;
use vstd::string::StringSliceAdditionalSpecFns;

verus! {

/// The namespace of extended (application) properties.
pub const EXTENDED: &'static str = "http://schemas.openxmlformats.org/officeDocument/2006/extended-properties";

/// The namespace of core properties.
pub const CORE: &'static str = "http://schemas.openxmlformats.org/package/2006/metadata/core-properties";

/// The namespace of Dublin Core elements.
pub const DC: &'static str = "http://purl.org/dc/elements/1.1/";

/// The namespace of Dublin Core terms.
pub const DC_TERMS: &'static str = "http://purl.org/dc/terms/";

/// The namespaces that a kind of properties document knows, each with its
/// name, as plain values.
pub open spec fn spaces_view(spaces: Seq<(Namespace, &'static str)>) -> Seq<(Namespace, Seq<u8>)> {
    spaces.map_values(|s: (Namespace, &'static str)| (s.0, s.1.spec_bytes()))
}

/// Each known namespace, with no prefix yet.
pub open spec fn unprefixed(spaces: Seq<(Namespace, Seq<u8>)>) -> Seq<(Namespace, Seq<char>)> {
    spaces.map_values(|s: (Namespace, Seq<u8>)| (s.0, Seq::<char>::empty()))
}

/// The index of the first known namespace named `space`, if any.
pub open spec fn space_index(spaces: Seq<(Namespace, Seq<u8>)>, space: Seq<u8>, j: int) -> Option<int>
    decreases spaces.len() - j,
{
    if j >= spaces.len() || j < 0 {
        None
    } else if spaces[j].1 == space {
        Some(j)
    } else {
        space_index(spaces, space, j + 1)
    }
}

/// A known namespace that is found is one of them.
pub proof fn lemma_space_index(spaces: Seq<(Namespace, Seq<u8>)>, space: Seq<u8>, j: int)
    requires
        0 <= j,
    ensures
        space_index(spaces, space, j) matches Some(x) ==> j <= x < spaces.len(),
    decreases spaces.len() - j,
{
    if j < spaces.len() && spaces[j].1 != space {
        lemma_space_index(spaces, space, j + 1);
    }
}

/// The prefixes of the known namespaces after the attributes of a start tag
/// from the `i`-th on: an attribute that declares one of them gives it its
/// prefix (no prefix stands for the empty one).
pub open spec fn declared(attributes: Seq<(Seq<u8>, Seq<u8>)>, spaces: Seq<(Namespace, Seq<u8>)>, i: int, known: Seq<(Namespace, Seq<char>)>) -> Seq<(Namespace, Seq<char>)>
    decreases attributes.len() - i,
{
    if i >= attributes.len() || i < 0 {
        known
    } else {
        let next = match namespace_of(attributes[i].0, attributes[i].1) {
            None => known,
            Some((space, prefix)) => match space_index(spaces, space, 0) {
                None => known,
                Some(j) => known.update(j, (known[j].0, utf8_lossy(match prefix {
                    Some(p) => p,
                    None => Seq::empty(),
                }))),
            },
        };
        declared(attributes, spaces, i + 1, next)
    }
}

/// A property element goes forward, and no further than one event past the
/// end.
pub proof fn lemma_property_advances(d: Seq<u8>, k: int, start: Seq<u8>, namespaces: Seq<(Namespace, Seq<char>)>)
    requires
        0 <= k <= d.len() + 1,
        property(d, k, start, namespaces) is Ok,
    ensures
        k < property(d, k, start, namespaces)->Ok_0.1 <= d.len() + 1,
{
    let (name, prefix) = split_name(start);
    if crate::xml::namespace_for(namespaces, prefix) == Namespace::XProperties && crate::xml::structured(name) {
        lemma_skip_advances(d, k, seq![start]);
    } else {
        lemma_string_advances(d, k, start, None, false);
    }
}

/// Reading the properties inside the root element named `start`, from the
/// `k`-th event of `d`, with the namespaces `known` by their prefixes: the
/// tags appended (each property with a value that is not empty) and where
/// reading goes on after the root's end tag, or the error.
pub open spec fn children(d: Seq<u8>, k: int, start: Seq<u8>, known: Seq<(Namespace, Seq<char>)>) -> (Seq<(Seq<char>, Seq<char>)>, Result<int, Error>)
    decreases d.len() + 1 - k,
{
    if k >= d.len() + 1 || k < 0 {
        (Seq::empty(), Err(Error::Metadata))
    } else {
        let t = xml_token(d, k as nat);
        if t.kind == XmlKind::End && t.name == start {
            (Seq::empty(), Ok(k + 1))
        } else if t.kind == XmlKind::End || t.kind == XmlKind::Eof || t.kind == XmlKind::Fail {
            (Seq::empty(), Err(Error::Metadata))
        } else if t.kind == XmlKind::Start {
            match property(d, k + 1, t.name, known) {
                Err(e) => (Seq::empty(), Err(e)),
                Ok(((n, v), k2)) => {
                    proof {
                        lemma_property_advances(d, k + 1, t.name, known);
                    }
                    let rest = children(d, k2, start, known);
                    if v.len() > 0 {
                        (seq![(n, v)] + rest.0, rest.1)
                    } else {
                        rest
                    }
                },
            }
        } else {
            children(d, k + 1, start, known)
        }
    }
}

/// Reading properties goes forward, and no further than one event past the
/// end.
pub proof fn lemma_children_advances(d: Seq<u8>, k: int, start: Seq<u8>, known: Seq<(Namespace, Seq<char>)>)
    requires
        0 <= k,
        children(d, k, start, known).1 is Ok,
    ensures
        k < children(d, k, start, known).1->Ok_0 <= d.len() + 1,
    decreases d.len() + 1 - k,
{
    let t = xml_token(d, k as nat);
    if t.kind == XmlKind::End && t.name == start {
    } else if t.kind == XmlKind::Start {
        lemma_property_advances(d, k + 1, t.name, known);
        lemma_children_advances(d, property(d, k + 1, t.name, known)->Ok_0.1, start, known);
    } else {
        lemma_children_advances(d, k + 1, start, known);
    }
}

/// Reading a properties document from its `k`-th event: the tags appended
/// and the outcome. Only a root element whose local name is `root` and
/// whose prefix is that of the first known namespace is read; any other
/// element is skipped.
pub open spec fn document(d: Seq<u8>, k: int, root: Seq<char>, spaces: Seq<(Namespace, Seq<u8>)>) -> (Seq<(Seq<char>, Seq<char>)>, Result<(), Error>)
    decreases d.len() + 1 - k,
{
    if k >= d.len() + 1 || k < 0 {
        (Seq::empty(), Err(Error::Metadata))
    } else {
        let t = xml_token(d, k as nat);
        if t.kind == XmlKind::Eof {
            (Seq::empty(), Ok(()))
        } else if t.kind == XmlKind::Fail {
            (Seq::empty(), Err(Error::Metadata))
        } else if t.kind == XmlKind::Start {
            if t.broken {
                (Seq::empty(), Err(Error::Metadata))
            } else {
                let known = declared(t.attributes, spaces, 0, unprefixed(spaces));
                let (name, prefix) = split_name(t.name);
                if !(name == root && prefix == known[0].1) {
                    match skip_to(d, k + 1, seq![t.name]) {
                        Err(e) => (Seq::empty(), Err(e)),
                        Ok(k2) => {
                            proof {
                                lemma_skip_advances(d, k + 1, seq![t.name]);
                            }
                            document(d, k2, root, spaces)
                        },
                    }
                } else {
                    let (tags, r) = children(d, k + 1, t.name, known);
                    match r {
                        Err(e) => (tags, Err(e)),
                        Ok(k2) => {
                            proof {
                                lemma_children_advances(d, k + 1, t.name, known);
                            }
                            before(tags, document(d, k2, root, spaces))
                        },
                    }
                }
            }
        } else {
            document(d, k + 1, root, spaces)
        }
    }
}

/// Optional bytes as plain values.
pub open spec fn bytes_view(b: Option<Vec<u8>>) -> Option<Seq<u8>> {
    match b {
        Some(v) => Some(v@),
        None => None,
    }
}

/// The attributes of a tag as plain values.
pub open spec fn attributes_view(attributes: Seq<(Vec<u8>, Vec<u8>)>) -> Seq<(Seq<u8>, Seq<u8>)> {
    attributes.map_values(|p: (Vec<u8>, Vec<u8>)| (p.0@, p.1@))
}

/// Finds the first known namespace named `space`.
fn find_space(spaces: &[(Namespace, &'static str)], space: &[u8]) -> (r: Option<usize>)
    ensures
        match r {
            None => space_index(spaces_view(spaces@), space@, 0) is None,
            Some(j) => space_index(spaces_view(spaces@), space@, 0) == Some(j as int),
        },
{
    let ghost sv = spaces_view(spaces@);
    let mut j: usize = 0;
    while j < spaces.len()
        invariant
            j <= spaces@.len(),
            sv == spaces_view(spaces@),
            space_index(sv, space@, 0) == space_index(sv, space@, j as int),
        decreases spaces@.len() - j,
    {
        assert(sv[j as int].1 == spaces@[j as int].1.spec_bytes());
        if same_bytes(spaces[j].1.as_bytes(), space) {
            return Some(j);
        }
        j += 1;
    }
    None
}

/// The prefixes that the attributes of a start tag give the known
/// namespaces.
fn declare(attributes: &Vec<(Vec<u8>, Vec<u8>)>, spaces: &[(Namespace, &'static str)]) -> (r: Vec<(Namespace, String)>)
    ensures
        namespaces_view(r@) == declared(attributes_view(attributes@), spaces_view(spaces@), 0, unprefixed(spaces_view(spaces@))),
{
    let ghost av = attributes_view(attributes@);
    let ghost sv = spaces_view(spaces@);
    let mut known: Vec<(Namespace, String)> = Vec::new();
    let mut j: usize = 0;
    while j < spaces.len()
        invariant
            j <= spaces@.len(),
            sv == spaces_view(spaces@),
            namespaces_view(known@) == unprefixed(sv).take(j as int),
        decreases spaces@.len() - j,
    {
        let ghost before = known@;
        known.push((spaces[j].0, empty()));
        assert(namespaces_view(known@) =~= unprefixed(sv).take(j + 1)) by {
            assert(namespaces_view(known@) =~= namespaces_view(before).push((spaces@[j as int].0, Seq::<char>::empty())));
        }
        j += 1;
    }
    assert(unprefixed(sv).take(spaces@.len() as int) =~= unprefixed(sv));
    let mut i: usize = 0;
    while i < attributes.len()
        invariant
            i <= attributes@.len(),
            av == attributes_view(attributes@),
            sv == spaces_view(spaces@),
            namespaces_view(known@).len() == sv.len(),
            declared(av, sv, 0, unprefixed(sv)) == declared(av, sv, i as int, namespaces_view(known@)),
        decreases attributes@.len() - i,
    {
        let ghost kv = namespaces_view(known@);
        assert(av[i as int] == (attributes@[i as int].0@, attributes@[i as int].1@));
        let ghost next = match namespace_of(av[i as int].0, av[i as int].1) {
            None => kv,
            Some((space, prefix)) => match space_index(sv, space, 0) {
                None => kv,
                Some(j) => kv.update(j, (kv[j].0, utf8_lossy(match prefix {
                    Some(p) => p,
                    None => Seq::empty(),
                }))),
            },
        };
        assert(declared(av, sv, i as int, kv) == declared(av, sv, i + 1, next));
        match parse_namespace(attributes[i].0.as_slice(), attributes[i].1.as_slice()) {
            None => {
                assert(namespaces_view(known@) == next);
            },
            Some((space, prefix)) => {
                let ghost pv: Option<Seq<u8>> = crate::metadata::office::bytes_view(prefix);
                assert(namespace_of(av[i as int].0, av[i as int].1) == Some((space@, pv)));
                proof {
                    lemma_space_index(sv, space@, 0);
                }
                match find_space(spaces, space.as_slice()) {
                    None => {
                        assert(namespaces_view(known@) == next);
                    },
                    Some(j) => {
                        let text = match prefix {
                            Some(p) => lossy(p.as_slice()),
                            None => {
                                let none: Vec<u8> = Vec::new();
                                assert(none@ =~= Seq::<u8>::empty());
                                lossy(none.as_slice())
                            },
                        };
                        let ghost t = text@;
                        assert(t == utf8_lossy(match pv { Some(p) => p, None => Seq::empty() }));
                        assert(space_index(sv, space@, 0) == Some(j as int));
                        let namespace = known[j].0;
                        known.set(j, (namespace, text));
                        assert(namespaces_view(known@) =~= kv.update(j as int, (kv[j as int].0, t)));
                        assert(namespaces_view(known@) == next);
                    },
                }
            },
        }
        i += 1;
    }
    known
}

/// Reads the properties inside the root element named `start`, whose
/// start tag was just read, appending each with a value that is not empty.
fn read_children(reader: &mut XmlReader, start: &[u8], known: &Vec<(Namespace, String)>, metadata: &mut Vec<Tag>) -> (r: Result<(), Error>)
    ensures
        final(reader).data() == old(reader).data(),
        ({
            let (tags, res) = children(old(reader).data(), old(reader).index() as int, start@, namespaces_view(known@));
            &&& pushed(final(metadata)@, old(metadata)@, tags)
            &&& match res {
                Err(e) => r == Err::<(), Error>(e),
                Ok(k) => r is Ok && final(reader).index() == k,
            }
        }),
{
    let ghost d = reader.data();
    let ghost k0 = reader.index() as int;
    let ghost kv = namespaces_view(known@);
    let ghost first = metadata@;
    let ghost mut done: Seq<(Seq<char>, Seq<char>)> = Seq::empty();
    proof {
        lemma_pushed_none(metadata@);
    }
    assert(Seq::<(Seq<char>, Seq<char>)>::empty() + children(d, k0, start@, kv).0 =~= children(d, k0, start@, kv).0);
    loop
        invariant
            reader.data() == d,
            d == old(reader).data(),
            k0 == old(reader).index(),
            kv == namespaces_view(known@),
            first == old(metadata)@,
            pushed(metadata@, first, done),
            0 <= reader.index(),
            children(d, k0, start@, kv).0 == done + children(d, reader.index() as int, start@, kv).0,
            children(d, k0, start@, kv).1 == children(d, reader.index() as int, start@, kv).1,
        decreases d.len() + 1 - reader.index(),
    {
        let ghost k = reader.index() as int;
        if reader.exhausted() {
            assert(done + Seq::<(Seq<char>, Seq<char>)>::empty() =~= done);
            return Err(Error::Metadata);
        }
        let event = reader.next();
        match event.kind {
            XmlKind::End => {
                assert(done + Seq::<(Seq<char>, Seq<char>)>::empty() =~= done);
                if same_bytes(event.name.as_slice(), start) {
                    return Ok(());
                }
                return Err(Error::Metadata);
            },
            XmlKind::Eof | XmlKind::Fail => {
                assert(done + Seq::<(Seq<char>, Seq<char>)>::empty() =~= done);
                return Err(Error::Metadata);
            },
            XmlKind::Start => {
                let result = parse_start(reader, event.name.as_slice(), known.as_slice());
                match result {
                    Err(e) => {
                        assert(done + Seq::<(Seq<char>, Seq<char>)>::empty() =~= done);
                        return Err(e);
                    },
                    Ok((name, value)) => {
                        proof {
                            lemma_property_advances(d, k + 1, event.name@, kv);
                        }
                        if !crate::text::is_empty_text(&value) {
                            let ghost pair = (name@, value@);
                            let ghost rest = children(d, reader.index() as int, start@, kv).0;
                            push_pushed(metadata, name, value, Ghost(first), Ghost(done));
                            proof {
                                assert(done + (seq![pair] + rest) =~= done.push(pair) + rest);
                                done = done.push(pair);
                            }
                        }
                    },
                }
            },
            _ => {},
        }
    }
}

/// Reads a properties document, appending its properties: only a root
/// element whose local name is `root` and whose prefix is that of the first
/// of `spaces` is read.
fn read_document(data: &[u8], metadata: &mut Vec<Tag>, root: &str, spaces: &[(Namespace, &'static str)]) -> (r: Result<(), Error>)
    requires
        spaces@.len() > 0,
    ensures
        ({
            let (tags, res) = document(data@, 0, root@, spaces_view(spaces@));
            pushed(final(metadata)@, old(metadata)@, tags) && r == res
        }),
{
    let ghost d = data@;
    let ghost sv = spaces_view(spaces@);
    let ghost first = metadata@;
    let ghost mut done: Seq<(Seq<char>, Seq<char>)> = Seq::empty();
    proof {
        lemma_pushed_none(metadata@);
    }
    let mut reader = XmlReader::open(data);
    assert(Seq::<(Seq<char>, Seq<char>)>::empty() + document(d, 0, root@, sv).0 =~= document(d, 0, root@, sv).0);
    loop
        invariant
            reader.data() == d,
            d == data@,
            sv == spaces_view(spaces@),
            sv.len() > 0,
            first == old(metadata)@,
            pushed(metadata@, first, done),
            document(d, 0, root@, sv) == before(done, document(d, reader.index() as int, root@, sv)),
        decreases d.len() + 1 - reader.index(),
    {
        let ghost k = reader.index() as int;
        if reader.exhausted() {
            assert(done + Seq::<(Seq<char>, Seq<char>)>::empty() =~= done);
            return Err(Error::Metadata);
        }
        let event = reader.next();
        match event.kind {
            XmlKind::Eof => {
                assert(done + Seq::<(Seq<char>, Seq<char>)>::empty() =~= done);
                return Ok(());
            },
            XmlKind::Fail => {
                assert(done + Seq::<(Seq<char>, Seq<char>)>::empty() =~= done);
                return Err(Error::Metadata);
            },
            XmlKind::Start => {
                if event.broken {
                    assert(done + Seq::<(Seq<char>, Seq<char>)>::empty() =~= done);
                    return Err(Error::Metadata);
                }
                let known = declare(&event.attributes, spaces);
                let (name, prefix) = parse_name(event.name.as_slice());
                assert(namespaces_view(known@).len() == sv.len()) by {
                    assert(unprefixed(sv).len() == sv.len());
                    lemma_declared_len(event@.attributes, sv, 0, unprefixed(sv));
                }
                let is_root = name == owned(root) && prefix == known[0].1;
                assert(is_root == (name@ == root@ && prefix@ == namespaces_view(known@)[0].1));
                if !is_root {
                    let skipped = skip(&mut reader, event.name.as_slice());
                    match skipped {
                        Err(e) => {
                            assert(done + Seq::<(Seq<char>, Seq<char>)>::empty() =~= done);
                            return Err(e);
                        },
                        Ok(()) => {
                            proof {
                                lemma_skip_advances(d, k + 1, seq![event.name@]);
                            }
                        },
                    }
                } else {
                    let ghost before_tags = metadata@;
                    let ghost inner = children(d, k + 1, event.name@, namespaces_view(known@)).0;
                    let result = read_children(&mut reader, event.name.as_slice(), &known, metadata);
                    proof {
                        lemma_pushed_trans(first, before_tags, metadata@, done, inner);
                    }
                    match result {
                        Err(e) => {
                            return Err(e);
                        },
                        Ok(()) => {
                            proof {
                                lemma_children_advances(d, k + 1, event.name@, namespaces_view(known@));
                                let rest = document(d, reader.index() as int, root@, sv);
                                assert(done + (inner + rest.0) =~= (done + inner) + rest.0);
                                done = done + inner;
                            }
                        },
                    }
                }
            },
            _ => {},
        }
    }
}

/// The prefixes of the known namespaces stay one for each.
pub proof fn lemma_declared_len(attributes: Seq<(Seq<u8>, Seq<u8>)>, spaces: Seq<(Namespace, Seq<u8>)>, i: int, known: Seq<(Namespace, Seq<char>)>)
    requires
        known.len() == spaces.len(),
    ensures
        declared(attributes, spaces, i, known).len() == spaces.len(),
    decreases attributes.len() - i,
{
    if 0 <= i < attributes.len() {
        let next = match namespace_of(attributes[i].0, attributes[i].1) {
            None => known,
            Some((space, prefix)) => match space_index(spaces, space, 0) {
                None => known,
                Some(j) => known.update(j, (known[j].0, utf8_lossy(match prefix {
                    Some(p) => p,
                    None => Seq::empty(),
                }))),
            },
        };
        if let Some((space, _)) = namespace_of(attributes[i].0, attributes[i].1) {
            lemma_space_index(spaces, space, 0);
        }
        lemma_declared_len(attributes, spaces, i + 1, next);
    }
}

/// The extended properties a document declares.
pub open spec fn application_spaces() -> Seq<(Namespace, Seq<u8>)> {
    seq![(Namespace::XProperties, EXTENDED.spec_bytes())]
}

/// The core properties a document declares.
pub open spec fn core_spaces() -> Seq<(Namespace, Seq<u8>)> {
    seq![
        (Namespace::CoreProperties, CORE.spec_bytes()),
        (Namespace::Dc, DC.spec_bytes()),
        (Namespace::DcTerms, DC_TERMS.spec_bytes()),
    ]
}

/// Reading an extended properties document (`docProps/app.xml`): the tags
/// appended and the outcome.
pub open spec fn application_properties(d: Seq<u8>) -> (Seq<(Seq<char>, Seq<char>)>, Result<(), Error>) {
    document(d, 0, "Properties"@, application_spaces())
}

/// Reading a core properties document (`docProps/core.xml`): the tags
/// appended and the outcome.
pub open spec fn core_properties(d: Seq<u8>) -> (Seq<(Seq<char>, Seq<char>)>, Result<(), Error>) {
    document(d, 0, "coreProperties"@, core_spaces())
}

/// Reads an extended properties document, appending each property with a
/// value (`Unknown` for a structured one).
pub fn parse_application(data: &[u8], metadata: &mut Vec<Tag>) -> (r: Result<(), Error>)
    ensures
        pushed(final(metadata)@, old(metadata)@, application_properties(data@).0),
        r == application_properties(data@).1,
{
    let spaces = [(Namespace::XProperties, EXTENDED)];
    assert(spaces_view(spaces@) =~= application_spaces());
    read_document(data, metadata, "Properties", spaces.as_slice())
}

/// Reads a core properties document, appending each property with a
/// value.
pub fn parse_core(data: &[u8], metadata: &mut Vec<Tag>) -> (r: Result<(), Error>)
    ensures
        pushed(final(metadata)@, old(metadata)@, core_properties(data@).0),
        r == core_properties(data@).1,
{
    let spaces = [(Namespace::CoreProperties, CORE), (Namespace::Dc, DC), (Namespace::DcTerms, DC_TERMS)];
    assert(spaces_view(spaces@) =~= core_spaces());
    read_document(data, metadata, "coreProperties", spaces.as_slice())
}

#[verifier::external_type_specification]
#[verifier::external_body]
#[verifier::reject_recursive_types(R)]
pub struct ExZipArchive<R>(zip::ZipArchive<R>);

#[verifier::external_type_specification]
#[verifier::external_body]
#[verifier::reject_recursive_types(T)]
pub struct ExCursor<T>(std::io::Cursor<T>);

/// How many entries zip's `ZipArchive::new` finds in an archive held in
/// memory, or `None` where it refuses the archive.
pub uninterp spec fn zip_count(data: Seq<u8>) -> Option<nat>;

/// The name of an archive's `index`-th entry, as zip's
/// `ZipArchive::by_index` and `ZipFile::name` give it, or `None` where
/// either fails.
pub uninterp spec fn zip_name(data: Seq<u8>, index: nat) -> Option<Seq<char>>;

/// The contents of an archive's `index`-th entry, as reading the entry that
/// zip's `ZipArchive::by_index` gives to its end yields them, or `None`
/// where either fails.
pub uninterp spec fn zip_content(data: Seq<u8>, index: nat) -> Option<Seq<u8>>;

/// A ZIP archive held in memory, read with zip's `ZipArchive`.
pub struct Archive<'a> {
    archive: zip::ZipArchive<std::io::Cursor<&'a [u8]>>,
    data: Ghost<Seq<u8>>,
    count: usize,
}

impl<'a> Archive<'a> {
    /// The bytes of the archive.
    pub closed spec fn data(&self) -> Seq<u8> {
        self.data@
    }

    /// How many entries the archive has.
    pub closed spec fn len(&self) -> nat {
        self.count as nat
    }

    /// Reads an archive with zip's `ZipArchive::new`. The contract ties the
    /// archive and its number of entries to the bytes.
    #[verifier::external_body]
    pub fn open(data: &'a [u8]) -> (r: Option<Archive<'a>>)
        ensures
            match r {
                Some(a) => zip_count(data@) == Some(a.len()) && a.data() == data@,
                None => zip_count(data@) is None,
            },
    {
        match zip::ZipArchive::new(std::io::Cursor::new(data)) {
            Ok(archive) => {
                let count = archive.len();
                Some(Archive { archive, data: Ghost(data@), count })
            },
            Err(_) => None,
        }
    }

    /// How many entries the archive has (zip's `ZipArchive::len`).
    pub fn entries(&self) -> (r: usize)
        ensures
            r == self.len(),
    {
        self.count
    }

    /// The name of the `index`-th entry (zip's `ZipArchive::by_index` and
    /// `ZipFile::name`), named by `zip_name`.
    #[verifier::external_body]
    pub fn name(&mut self, index: usize) -> (r: Option<String>)
        requires
            index < old(self).len(),
        ensures
            final(self).data() == old(self).data(),
            final(self).len() == old(self).len(),
            match r {
                Some(n) => zip_name(old(self).data(), index as nat) == Some(n@),
                None => zip_name(old(self).data(), index as nat) is None,
            },
    {
        match self.archive.by_index(index) {
            Ok(file) => match file.name() {
                Ok(name) => Some(name.into_owned()),
                Err(_) => None,
            },
            Err(_) => None,
        }
    }

    /// The contents of the `index`-th entry (zip's `ZipArchive::by_index`,
    /// read to its end), named by `zip_content`.
    #[verifier::external_body]
    pub fn content(&mut self, index: usize) -> (r: Option<Vec<u8>>)
        requires
            index < old(self).len(),
        ensures
            final(self).data() == old(self).data(),
            final(self).len() == old(self).len(),
            match r {
                Some(c) => zip_content(old(self).data(), index as nat) == Some(c@),
                None => zip_content(old(self).data(), index as nat) is None,
            },
    {
        let mut file = match self.archive.by_index(index) {
            Ok(file) => file,
            Err(_) => return None,
        };
        let mut content = Vec::new();
        match std::io::Read::read_to_end(&mut file, &mut content) {
            Ok(_) => Some(content),
            Err(_) => None,
        }
    }
}

/// The entry holding the extended properties.
pub const APP_ENTRY: &'static str = "docProps/app.xml";

/// The entry holding the core properties.
pub const CORE_ENTRY: &'static str = "docProps/core.xml";

/// The entry holding the custom properties.
pub const CUSTOM_ENTRY: &'static str = "docProps/custom.xml";

/// The entry listing the content types.
pub const CONTENT_TYPES: &'static str = "[Content_Types].xml";

/// Reading an Office document: the tags of its extended and core
/// properties, entry by entry, or the error.
pub open spec fn office_entries(d: Seq<u8>, i: int, n: int) -> Result<Seq<(Seq<char>, Seq<char>)>, Error>
    decreases n - i,
{
    if i >= n || i < 0 {
        Ok(Seq::empty())
    } else {
        match zip_name(d, i as nat) {
            None => Err(Error::File),
            Some(name) => if name == APP_ENTRY@ || name == CORE_ENTRY@ {
                match zip_content(d, i as nat) {
                    None => Err(Error::Metadata),
                    Some(c) => {
                        let (tags, res) = if name == APP_ENTRY@ { application_properties(c) } else { core_properties(c) };
                        match res {
                            Err(e) => Err(e),
                            Ok(()) => match office_entries(d, i + 1, n) {
                                Err(e) => Err(e),
                                Ok(more) => Ok(tags + more),
                            },
                        }
                    },
                }
            } else {
                office_entries(d, i + 1, n)
            },
        }
    }
}

/// Reading an Office document (a ZIP archive): the tags of its extended
/// and core properties, or the error.
pub open spec fn office(d: Seq<u8>) -> Result<Seq<(Seq<char>, Seq<char>)>, Error> {
    match zip_count(d) {
        None => Err(Error::File),
        Some(n) => office_entries(d, 0, n as int),
    }
}

/// Reads the metadata of an Office document: its extended properties
/// (`docProps/app.xml`) and its core properties (`docProps/core.xml`).
pub fn get(data: &[u8]) -> (r: Result<Vec<Tag>, Error>)
    ensures
        match office(data@) {
            Ok(tags) => r matches Ok(v) && crate::view_tags(v@) == tags,
            Err(e) => r == Err::<Vec<Tag>, Error>(e),
        },
{
    let ghost d = data@;
    let mut archive = match Archive::open(data) {
        Some(a) => a,
        None => return Err(Error::File),
    };
    let n = archive.entries();
    let mut metadata: Vec<Tag> = Vec::new();
    let mut i: usize = 0;
    proof {
        match office(d) {
            Ok(tags) => {
                assert(crate::view_tags(metadata@) + tags =~= tags);
            },
            _ => {},
        }
    }
    while i < n
        invariant
            archive.data() == d,
            d == data@,
            archive.len() == n,
            zip_count(d) == Some(n as nat),
            i <= n,
            office(d) == match office_entries(d, i as int, n as int) {
                Err(e) => Err(e),
                Ok(more) => Ok(crate::view_tags(metadata@) + more),
            },
        decreases n - i,
    {
        let name = match archive.name(i) {
            Some(name) => name,
            None => return Err(Error::File),
        };
        let app = name == owned(APP_ENTRY);
        let core = name == owned(CORE_ENTRY);
        if app || core {
            let content = match archive.content(i) {
                Some(c) => c,
                None => return Err(Error::Metadata),
            };
            let ghost before = metadata@;
            let ghost tags = if app { application_properties(content@).0 } else { core_properties(content@).0 };
            let result = if app {
                parse_application(content.as_slice(), &mut metadata)
            } else {
                parse_core(content.as_slice(), &mut metadata)
            };
            proof {
                crate::lemma_pushed_view(metadata@, before, tags);
            }
            match result {
                Err(e) => return Err(e),
                Ok(()) => {
                    proof {
                        match office_entries(d, i + 1, n as int) {
                            Ok(more) => {
                                assert(crate::view_tags(before) + (tags + more) =~= crate::view_tags(metadata@) + more);
                            },
                            _ => {},
                        }
                    }
                },
            }
        }
        i += 1;
    }
    proof {
        assert(crate::view_tags(metadata@) + Seq::<(Seq<char>, Seq<char>)>::empty() =~= crate::view_tags(metadata@));
    }
    Ok(metadata)
}

/// One step of writing an archive: copying the `index`-th entry of an
/// archive as it stands, or storing an entry with a name and contents.
pub enum ZipOp {
    Copy(Seq<u8>, nat),
    Store(Seq<char>, Seq<u8>),
}

/// An archive being written into memory with zip's `ZipWriter`.
#[verifier::external_body]
pub struct Builder {
    writer: zip::ZipWriter<std::io::Cursor<Vec<u8>>>,
}

/// The steps a `Builder` has been asked to take.
pub uninterp spec fn builder_ops(builder: Builder) -> Seq<ZipOp>;

/// Whether zip's `ZipWriter`, writing into memory, takes each of the steps
/// `ops` in order without an error: `start_file` and `write_all` for an
/// entry stored without compression and with a fixed time stamp, and
/// `ZipArchive::by_index` then `raw_copy_file_touch` with a fixed time stamp
/// for a copy. Under these options the writer draws on no clock and no
/// randomness, so the outcome is one of the steps alone.
pub uninterp spec fn zip_accepts(ops: Seq<ZipOp>) -> bool;

/// The archive that zip's `ZipWriter::finish` gives after the steps `ops`,
/// written into memory, or `None` where finishing fails.
pub uninterp spec fn zip_written(ops: Seq<ZipOp>) -> Option<Seq<u8>>;

impl Builder {
    /// An empty archive (zip's `ZipWriter::new` over an empty buffer, which
    /// cannot fail); no step is taken yet.
    #[verifier::external_body]
    pub fn new() -> (r: Builder)
        ensures
            builder_ops(r) == Seq::<ZipOp>::empty(),
            zip_accepts(builder_ops(r)),
    {
        Builder { writer: zip::ZipWriter::new(std::io::Cursor::new(Vec::new())) }
    }

    /// Stores an entry (zip's `ZipWriter::start_file`, stored without
    /// compression and with a fixed time stamp, then `write_all`), after
    /// steps that all succeeded. The step is recorded; `ok` tells whether
    /// the writer took it, as `zip_accepts` names.
    #[verifier::external_body]
    pub fn store(&mut self, name: &str, contents: &[u8]) -> (ok: bool)
        requires
            zip_accepts(builder_ops(*old(self))),
        ensures
            builder_ops(*final(self)) == builder_ops(*old(self)).push(ZipOp::Store(name@, contents@)),
            ok == zip_accepts(builder_ops(*final(self))),
    {
        let options = zip::write::SimpleFileOptions::default()
            .compression_method(zip::CompressionMethod::Stored)
            .last_modified_time(zip::DateTime::default());
        if self.writer.start_file(name, options).is_err() {
            return false;
        }
        std::io::Write::write_all(&mut self.writer, contents).is_ok()
    }

    /// Copies an entry of an archive as it stands (zip's
    /// `ZipArchive::by_index` and `ZipWriter::raw_copy_file_touch`, with a
    /// fixed time stamp and no permissions), after steps that all
    /// succeeded. The step is recorded; `ok` tells whether it was taken, as
    /// `zip_accepts` names.
    #[verifier::external_body]
    pub fn copy(&mut self, archive: &mut Archive, index: usize) -> (ok: bool)
        requires
            index < old(archive).len(),
            zip_accepts(builder_ops(*old(self))),
        ensures
            final(archive).data() == old(archive).data(),
            final(archive).len() == old(archive).len(),
            builder_ops(*final(self)) == builder_ops(*old(self)).push(ZipOp::Copy(old(archive).data(), index as nat)),
            ok == zip_accepts(builder_ops(*final(self))),
    {
        match archive.archive.by_index(index) {
            Ok(file) => self.writer.raw_copy_file_touch(file, zip::DateTime::default(), None).is_ok(),
            Err(_) => false,
        }
    }

    /// Finishes the archive (zip's `ZipWriter::finish`) after steps that all
    /// succeeded, and gives its bytes, or `None` where finishing fails, as
    /// `zip_written` names.
    #[verifier::external_body]
    pub fn finish(self) -> (r: Option<Vec<u8>>)
        requires
            zip_accepts(builder_ops(self)),
        ensures
            match zip_written(builder_ops(self)) {
                Some(b) => r matches Some(v) && v@ == b,
                None => r is None,
            },
    {
        match self.writer.finish() {
            Ok(cursor) => Some(cursor.into_inner()),
            Err(_) => None,
        }
    }
}

/// The extended properties that removing metadata leaves: none.
pub const EMPTY_APP: &'static str = r#"<?xml version="1.0" encoding="UTF-8"?><Properties xmlns="http://schemas.openxmlformats.org/officeDocument/2006/extended-properties"></Properties>"#;

/// The core properties that removing metadata leaves: none.
pub const EMPTY_CORE: &'static str = r#"<?xml version="1.0" encoding="UTF-8"?><coreProperties xmlns="http://schemas.openxmlformats.org/package/2006/metadata/core-properties"></coreProperties>"#;

/// The custom properties that removing metadata leaves: none.
pub const EMPTY_CUSTOM: &'static str = r#"<?xml version="1.0" encoding="UTF-8"?><Properties xmlns="http://schemas.openxmlformats.org/officeDocument/2006/custom-properties"></Properties>"#;

/// The element that states a relationship.
pub const RELATIONSHIP: &'static str = "Relationship";

/// The attribute that states a relationship's type.
pub const TYPE: &'static str = "Type";

/// The end of the type of a relationship to custom XML.
pub const CUSTOM_XML: &'static str = "customXml";

/// `s` ends with `t`.
pub open spec fn ends_with<T>(s: Seq<T>, t: Seq<T>) -> bool {
    s.len() >= t.len() && s.subrange(s.len() - t.len(), s.len() as int) == t
}

/// `s` starts with `t`.
pub open spec fn starts_with<T>(s: Seq<T>, t: Seq<T>) -> bool {
    s.len() >= t.len() && s.subrange(0, t.len() as int) == t
}

/// An empty-element tag's attributes state a relationship to custom XML.
pub open spec fn custom_relation(attributes: Seq<(Seq<u8>, Seq<u8>)>) -> bool {
    exists|i: int| 0 <= i < attributes.len() && #[trigger] attributes[i].0 == TYPE.spec_bytes()
        && ends_with(attributes[i].1, CUSTOM_XML.spec_bytes())
}

/// A relationships document from its `k`-th event, with each relationship
/// to custom XML left out: the events written again, or the error.
pub open spec fn relations(c: Seq<u8>, k: int) -> Result<Seq<u8>, Error>
    decreases c.len() + 1 - k,
{
    if k >= c.len() + 1 || k < 0 {
        Err(Error::Metadata)
    } else {
        let t = xml_token(c, k as nat);
        let relation = t.kind == XmlKind::Empty && t.name == RELATIONSHIP.spec_bytes();
        if t.kind == XmlKind::Eof {
            Ok(Seq::empty())
        } else if t.kind == XmlKind::Fail {
            Err(Error::Metadata)
        } else if relation && custom_relation(t.attributes) {
            relations(c, k + 1)
        } else if relation && t.broken {
            Err(Error::Metadata)
        } else {
            match relations(c, k + 1) {
                Err(e) => Err(e),
                Ok(rest) => Ok(t.written + rest),
            }
        }
    }
}

/// Whether some bytes end with others.
fn bytes_end_with(s: &[u8], t: &[u8]) -> (r: bool)
    ensures
        r == ends_with(s@, t@),
{
    if s.len() < t.len() {
        return false;
    }
    let n = s.len();
    let r = same_bytes(&s[n - t.len()..n], t);
    assert(s@.subrange(n - t@.len(), n as int) == s@.subrange(n - t@.len(), n as int));
    r
}

/// Whether a tag's attributes state a relationship to custom XML.
fn is_custom_relation(attributes: &Vec<(Vec<u8>, Vec<u8>)>) -> (r: bool)
    ensures
        r == custom_relation(attributes_view(attributes@)),
{
    let ghost av = attributes_view(attributes@);
    let mut i: usize = 0;
    while i < attributes.len()
        invariant
            i <= attributes@.len(),
            av == attributes_view(attributes@),
            forall|j: int| 0 <= j < i ==> !(#[trigger] av[j].0 == TYPE.spec_bytes() && ends_with(av[j].1, CUSTOM_XML.spec_bytes())),
        decreases attributes@.len() - i,
    {
        assert(av[i as int] == (attributes@[i as int].0@, attributes@[i as int].1@));
        if same_bytes(attributes[i].0.as_slice(), TYPE.as_bytes()) && bytes_end_with(attributes[i].1.as_slice(), CUSTOM_XML.as_bytes()) {
            assert(av[i as int].0 == TYPE.spec_bytes() && ends_with(av[i as int].1, CUSTOM_XML.spec_bytes()));
            return true;
        }
        i += 1;
    }
    false
}

/// Writes a relationships document again, leaving out each relationship to
/// custom XML.
fn filter_relations(content: &[u8]) -> (r: Result<Vec<u8>, Error>)
    ensures
        match relations(content@, 0) {
            Err(e) => r == Err::<Vec<u8>, Error>(e),
            Ok(b) => r matches Ok(v) && v@ == b,
        },
{
    let ghost c = content@;
    let mut reader = XmlReader::open(content);
    let mut out: Vec<u8> = Vec::new();
    proof {
        match relations(c, 0) {
            Ok(rest) => {
                assert(out@ + rest =~= rest);
            },
            _ => {},
        }
    }
    loop
        invariant
            reader.data() == c,
            c == content@,
            relations(c, 0) == match relations(c, reader.index() as int) {
                Err(e) => Err(e),
                Ok(rest) => Ok(out@ + rest),
            },
        decreases c.len() + 1 - reader.index(),
    {
        if reader.exhausted() {
            return Err(Error::Metadata);
        }
        let event = reader.next();
        match event.kind {
            XmlKind::Eof => {
                assert(out@ + Seq::<u8>::empty() =~= out@);
                return Ok(out);
            },
            XmlKind::Fail => {
                return Err(Error::Metadata);
            },
            _ => {
                let relation = event.kind == XmlKind::Empty && same_bytes(event.name.as_slice(), RELATIONSHIP.as_bytes());
                if relation && is_custom_relation(&event.attributes) {
                } else if relation && event.broken {
                    return Err(Error::Metadata);
                } else {
                    let ghost before = out@;
                    let ghost w = event.written@;
                    out.extend_from_slice(event.written.as_slice());
                    proof {
                        match relations(c, reader.index() as int) {
                            Ok(rest) => {
                                assert(before + (w + rest) =~= out@ + rest);
                            },
                            _ => {},
                        }
                    }
                }
            },
        }
    }
}

/// What removing metadata does with an entry named `name`, the `i`-th of
/// the archive `d`: nothing (dropped), a step, or the error. The content
/// types and the entries under `code` are copied; the properties are
/// replaced by empty ones; relationships are written again without those
/// to custom XML; everything else is dropped.
pub open spec fn entry_op(d: Seq<u8>, i: int, name: Seq<char>, code: Seq<char>) -> Result<Option<ZipOp>, Error> {
    if name == CONTENT_TYPES@ {
        Ok(Some(ZipOp::Copy(d, i as nat)))
    } else if name == APP_ENTRY@ {
        Ok(Some(ZipOp::Store(name, EMPTY_APP.spec_bytes())))
    } else if name == CORE_ENTRY@ {
        Ok(Some(ZipOp::Store(name, EMPTY_CORE.spec_bytes())))
    } else if name == CUSTOM_ENTRY@ {
        Ok(Some(ZipOp::Store(name, EMPTY_CUSTOM.spec_bytes())))
    } else if ends_with(name, ".rels"@) && !starts_with(name, "customXml"@) {
        match zip_content(d, i as nat) {
            None => Err(Error::Metadata),
            Some(c) => match relations(c, 0) {
                Err(e) => Err(e),
                Ok(b) => Ok(Some(ZipOp::Store(name, b))),
            },
        }
    } else if starts_with(name, code) {
        Ok(Some(ZipOp::Copy(d, i as nat)))
    } else {
        Ok(None)
    }
}

/// Removing the metadata of an Office document from its `i`-th entry on,
/// after the writer took the steps `ops`: the archive written, or the
/// error. An entry's error, or a step the writer does not take, ends the
/// removal.
pub open spec fn removal_from(d: Seq<u8>, code: Seq<char>, i: int, n: int, ops: Seq<ZipOp>) -> Result<Seq<u8>, Error>
    decreases n - i,
{
    if i >= n || i < 0 {
        match zip_written(ops) {
            Some(b) => Ok(b),
            None => Err(Error::File),
        }
    } else {
        match zip_name(d, i as nat) {
            None => Err(Error::File),
            Some(name) => match entry_op(d, i, name, code) {
                Err(e) => Err(e),
                Ok(None) => removal_from(d, code, i + 1, n, ops),
                Ok(Some(o)) => if zip_accepts(ops.push(o)) {
                    removal_from(d, code, i + 1, n, ops.push(o))
                } else {
                    Err(Error::File)
                },
            },
        }
    }
}

/// Removing the metadata of an Office document whose own entries lie under
/// `code`: the archive written, or the error.
pub open spec fn office_removal(d: Seq<u8>, code: Seq<char>) -> Result<Seq<u8>, Error> {
    match zip_count(d) {
        None => Err(Error::File),
        Some(n) => removal_from(d, code, 0, n as int, Seq::empty()),
    }
}

/// Whether a text ends with another.
fn text_ends_with(s: &String, t: &str) -> (r: bool)
    ensures
        r == ends_with(s@, t@),
{
    let a = crate::text::chars_of(s.as_str());
    let b = crate::text::chars_of(t);
    if a.len() < b.len() {
        return false;
    }
    let n = a.len();
    let m = b.len();
    let mut i: usize = 0;
    while i < m
        invariant
            i <= m,
            m <= n,
            n == a@.len(),
            m == b@.len(),
            a@ == s@,
            b@ == t@,
            forall|j: int| 0 <= j < i ==> a@[n - m + j] == b@[j],
        decreases m - i,
    {
        if a[n - m + i] != b[i] {
            assert(a@.subrange(n - m, n as int)[i as int] != b@[i as int]);
            return false;
        }
        i += 1;
    }
    assert(a@.subrange(n - m, n as int) =~= b@);
    true
}

/// Whether a text starts with another.
fn text_starts_with(s: &String, t: &str) -> (r: bool)
    ensures
        r == starts_with(s@, t@),
{
    let a = crate::text::chars_of(s.as_str());
    let b = crate::text::chars_of(t);
    if a.len() < b.len() {
        return false;
    }
    let m = b.len();
    let mut i: usize = 0;
    while i < m
        invariant
            i <= m,
            m <= a@.len(),
            m == b@.len(),
            a@ == s@,
            b@ == t@,
            forall|j: int| 0 <= j < i ==> a@[j] == b@[j],
        decreases m - i,
    {
        if a[i] != b[i] {
            assert(a@.subrange(0, m as int)[i as int] != b@[i as int]);
            return false;
        }
        i += 1;
    }
    assert(a@.subrange(0, m as int) =~= b@);
    true
}

/// Removes the metadata of an Office document whose own entries lie under
/// `code` (`word/` or `xl/`): writes a new archive with the content types
/// and the document's own entries copied, empty properties, and the
/// relationships without those to custom XML. A step the archive writer
/// does not take gives `Error::File`.
pub fn delete(data: &[u8], code: &str) -> (r: Result<Vec<u8>, Error>)
    ensures
        match office_removal(data@, code@) {
            Ok(b) => r matches Ok(v) && v@ == b,
            Err(e) => r == Err::<Vec<u8>, Error>(e),
        },
{
    let ghost d = data@;
    let mut archive = match Archive::open(data) {
        Some(a) => a,
        None => return Err(Error::File),
    };
    let n = archive.entries();
    let mut builder = Builder::new();
    let mut i: usize = 0;
    while i < n
        invariant
            archive.data() == d,
            d == data@,
            archive.len() == n,
            zip_count(d) == Some(n as nat),
            i <= n,
            zip_accepts(builder_ops(builder)),
            office_removal(d, code@) == removal_from(d, code@, i as int, n as int, builder_ops(builder)),
        decreases n - i,
    {
        let name = match archive.name(i) {
            Some(name) => name,
            None => return Err(Error::File),
        };
        let ok = if name == owned(CONTENT_TYPES) {
            builder.copy(&mut archive, i)
        } else if name == owned(APP_ENTRY) {
            builder.store(name.as_str(), EMPTY_APP.as_bytes())
        } else if name == owned(CORE_ENTRY) {
            builder.store(name.as_str(), EMPTY_CORE.as_bytes())
        } else if name == owned(CUSTOM_ENTRY) {
            builder.store(name.as_str(), EMPTY_CUSTOM.as_bytes())
        } else if text_ends_with(&name, ".rels") && !text_starts_with(&name, "customXml") {
            let content = match archive.content(i) {
                Some(c) => c,
                None => return Err(Error::Metadata),
            };
            let filtered = filter_relations(content.as_slice())?;
            builder.store(name.as_str(), filtered.as_slice())
        } else if text_starts_with(&name, code) {
            builder.copy(&mut archive, i)
        } else {
            true
        };
        if !ok {
            return Err(Error::File);
        }
        i += 1;
    }
    match builder.finish() {
        Some(out) => Ok(out),
        None => Err(Error::File),
    }
}

} // verus!
