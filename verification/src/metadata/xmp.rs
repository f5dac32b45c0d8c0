use crate::{
    Error, Tag, pushed, push_pushed, lemma_pushed_none,
    text::{chars_of, empty, lossy, owned, same_bytes, utf8_lossy},
    xml::{XmlKind, XmlReader, colon, find_colon, is_first_colon, string_of, xml_token},
};
use vstd::prelude::*;

verus! {

/// The local name of a qualified name, or nothing where it has no prefix.
pub open spec fn xmp_code(name: Seq<u8>) -> Seq<char> {
    let s = utf8_lossy(name);
    match colon(s) {
        Some(p) => s.subrange(p + 1, s.len() as int),
        None => Seq::empty(),
    }
}

/// Whether the text inside elements with this local name is reported:
/// editing history, manifests and thumbnails are not.
pub open spec fn kept(code: Seq<char>) -> bool {
    code != "History"@ && code != "Manifest"@ && code != "Thumbnails"@
}

/// An ASCII whitespace byte.
pub open spec fn is_space(b: u8) -> bool {
    b == 32 || b == 9 || b == 10 || b == 12 || b == 13
}

/// Text made only of ASCII whitespace.
pub open spec fn blank(t: Seq<u8>) -> bool {
    forall|i: int| 0 <= i < t.len() ==> is_space(#[trigger] t[i])
}

/// The name given to the text of an element: its local name, or the whole
/// qualified name where `qualified`.
pub open spec fn tag_name(name: Seq<u8>, qualified: bool) -> Seq<char> {
    if qualified { utf8_lossy(name) } else { xmp_code(name) }
}

/// Tags in front of what a reading appends.
pub open spec fn before(tags: Seq<(Seq<char>, Seq<char>)>, rest: (Seq<(Seq<char>, Seq<char>)>, Result<(), Error>)) -> (Seq<(Seq<char>, Seq<char>)>, Result<(), Error>) {
    (tags + rest.0, rest.1)
}

/// Reading the events of `d` from the `k`-th on, with the open elements in
/// `stack` (each with whether its text is reported): the tags appended and
/// the outcome, each tag named as `tag_name` says. At most `limit` events are read.
pub open spec fn run(d: Seq<u8>, k: int, limit: int, stack: Seq<(Seq<u8>, bool)>, qualified: bool) -> (Seq<(Seq<char>, Seq<char>)>, Result<(), Error>)
    decreases if k < limit { limit - k } else { 0 },
{
    if k >= limit || k < 0 {
        (Seq::empty(), Err(Error::Metadata))
    } else {
        let t = xml_token(d, k as nat);
        if stack.len() == 0 {
            if t.kind == XmlKind::Start {
                run(d, k + 1, limit, seq![(t.name, kept(xmp_code(t.name)))], qualified)
            } else if t.kind == XmlKind::Eof {
                (Seq::empty(), Ok(()))
            } else if t.kind == XmlKind::Fail {
                (Seq::empty(), Err(Error::Metadata))
            } else {
                run(d, k + 1, limit, stack, qualified)
            }
        } else {
            let top = stack.last();
            if t.kind == XmlKind::End {
                if t.name == top.0 {
                    run(d, k + 1, limit, stack.drop_last(), qualified)
                } else {
                    (Seq::empty(), Err(Error::Metadata))
                }
            } else if t.kind == XmlKind::Eof || t.kind == XmlKind::Fail {
                (Seq::empty(), Err(Error::Metadata))
            } else if t.kind == XmlKind::Start {
                run(d, k + 1, limit, stack.push((t.name, top.1 && kept(xmp_code(t.name)))), qualified)
            } else if t.kind == XmlKind::Text && !blank(t.name) && top.1 {
                before(seq![(tag_name(top.0, qualified), utf8_lossy(t.name))], run(d, k + 1, limit, stack, qualified))
            } else {
                run(d, k + 1, limit, stack, qualified)
            }
        }
    }
}

/// None of the open elements is a History, Manifest or Thumbnails element.
pub open spec fn all_kept(stack: Seq<(Seq<u8>, bool)>) -> bool {
    forall|i: int| 0 <= i < stack.len() ==> kept(xmp_code(#[trigger] stack[i].0))
}

/// Each open element is marked as reported exactly where neither it nor any
/// element around it is a History, Manifest or Thumbnails element.
pub open spec fn marked(stack: Seq<(Seq<u8>, bool)>) -> bool {
    forall|i: int| 0 <= i < stack.len() ==> #[trigger] stack[i].1 == all_kept(stack.take(i + 1))
}

/// Text is reported only outside editing history, manifests and
/// thumbnails, at any depth: with the open elements marked, a text event
/// gives a tag exactly where no open element (the innermost included) is a
/// History, Manifest or Thumbnails element and the text is not blank; the
/// tag is named after the innermost element.
pub proof fn lemma_text_reported(d: Seq<u8>, k: int, limit: int, stack: Seq<(Seq<u8>, bool)>, qualified: bool)
    requires
        marked(stack),
        stack.len() > 0,
        0 <= k < limit,
        xml_token(d, k as nat).kind == XmlKind::Text,
    ensures
        ({
            let t = xml_token(d, k as nat);
            run(d, k, limit, stack, qualified) == if all_kept(stack) && !blank(t.name) {
                before(seq![(tag_name(stack.last().0, qualified), utf8_lossy(t.name))], run(d, k + 1, limit, stack, qualified))
            } else {
                run(d, k + 1, limit, stack, qualified)
            }
        }),
{
    let n = stack.len() - 1;
    assert(stack.take(n + 1) =~= stack);
    assert(stack[n].1 == all_kept(stack.take(n + 1)));
}

/// Opening an element goes on with it marked as reported exactly where
/// neither it nor any element around it is a History, Manifest or
/// Thumbnails element, so the marks stay right; closing one keeps them
/// right too.
pub proof fn lemma_start_marked(d: Seq<u8>, k: int, limit: int, stack: Seq<(Seq<u8>, bool)>, qualified: bool)
    requires
        marked(stack),
        0 <= k < limit,
        xml_token(d, k as nat).kind == XmlKind::Start,
    ensures
        ({
            let t = xml_token(d, k as nat);
            let opened = stack.push((t.name, all_kept(stack) && kept(xmp_code(t.name))));
            &&& run(d, k, limit, stack, qualified) == run(d, k + 1, limit, opened, qualified)
            &&& marked(opened)
            &&& stack.len() > 0 ==> marked(stack.drop_last())
        }),
{
    let t = xml_token(d, k as nat);
    let flag = all_kept(stack) && kept(xmp_code(t.name));
    let opened = stack.push((t.name, flag));
    let n = stack.len() as int;
    if n > 0 {
        assert(stack.take(n) =~= stack);
        assert(stack[n - 1].1 == all_kept(stack.take(n)));
        assert forall|i: int| 0 <= i < n - 1 implies #[trigger] stack.drop_last()[i].1 == all_kept(stack.drop_last().take(i + 1)) by {
            assert(stack.drop_last().take(i + 1) =~= stack.take(i + 1));
            assert(stack[i].1 == all_kept(stack.take(i + 1)));
        }
    } else {
        assert(seq![(t.name, kept(xmp_code(t.name)))] =~= opened);
    }
    assert forall|i: int| 0 <= i < opened.len() implies #[trigger] opened[i].1 == all_kept(opened.take(i + 1)) by {
        if i < n {
            assert(opened.take(i + 1) =~= stack.take(i + 1));
            assert(stack[i].1 == all_kept(stack.take(i + 1)));
        } else {
            assert(opened.take(i + 1) =~= opened);
            if all_kept(opened) {
                assert forall|j: int| 0 <= j < stack.len() implies kept(xmp_code(#[trigger] stack[j].0)) by {
                    assert(opened[j].0 == stack[j].0);
                }
                assert(kept(xmp_code(opened[n].0)));
            }
            if flag {
                assert forall|j: int| 0 <= j < opened.len() implies kept(xmp_code(#[trigger] opened[j].0)) by {
                    if j < n {
                        assert(opened[j].0 == stack[j].0);
                    }
                }
            }
        }
    }
}

/// The bytes that an XMP packet is read from: the packet decoded as UTF-8
/// (ill-formed parts replaced) and encoded again.
pub open spec fn packet(d: Seq<u8>) -> Seq<u8> {
    vstd::utf8::encode_utf8(utf8_lossy(d))
}

/// Reading an XMP packet: the tags it appends (the text of each element,
/// named as `tag_name` says, outside editing history, manifests and
/// thumbnails) and the outcome.
pub open spec fn xmp_named(d: Seq<u8>, qualified: bool) -> (Seq<(Seq<char>, Seq<char>)>, Result<(), Error>) {
    run(packet(d), 0, packet(d).len() + 1int, Seq::empty(), qualified)
}

/// Reading an XMP packet, each tag named by its element's local name.
pub open spec fn xmp(d: Seq<u8>) -> (Seq<(Seq<char>, Seq<char>)>, Result<(), Error>) {
    xmp_named(d, false)
}

/// The local name of a qualified name, or nothing where it has no prefix.
fn code_of(name: &[u8]) -> (r: String)
    ensures
        r@ == xmp_code(name@),
{
    let text = lossy(name);
    let chars = chars_of(text.as_str());
    let cs = chars.as_slice();
    let n = cs.len();
    match find_colon(cs) {
        Some(p) => {
            proof {
                let q = colon(cs@).unwrap();
                assert(is_first_colon(cs@, q));
            }
            string_of(&cs[p + 1..n])
        },
        None => empty(),
    }
}

/// The name given to the text of an element.
fn name_of(name: &[u8], qualified: bool) -> (r: String)
    ensures
        r@ == tag_name(name@, qualified),
{
    if qualified { lossy(name) } else { code_of(name) }
}

/// Whether the text inside elements with this local name is reported.
fn is_kept(code: &String) -> (r: bool)
    ensures
        r == kept(code@),
{
    !(*code == owned("History") || *code == owned("Manifest") || *code == owned("Thumbnails"))
}

/// Whether some text is only ASCII whitespace.
fn is_blank(t: &[u8]) -> (r: bool)
    ensures
        r == blank(t@),
{
    let mut i: usize = 0;
    while i < t.len()
        invariant
            i <= t@.len(),
            forall|j: int| 0 <= j < i ==> is_space(#[trigger] t@[j]),
        decreases t@.len() - i,
    {
        let b = t[i];
        if !(b == 32 || b == 9 || b == 10 || b == 12 || b == 13) {
            assert(!is_space(t@[i as int]));
            return false;
        }
        i += 1;
    }
    true
}

/// The open elements as plain values.
pub open spec fn stack_view(stack: Seq<(Vec<u8>, bool)>) -> Seq<(Seq<u8>, bool)> {
    stack.map_values(|p: (Vec<u8>, bool)| (p.0@, p.1))
}

/// Reads an XMP packet, appending a tag for the text of each element
/// (named by its local name), except inside editing history, manifests and
/// thumbnails.
pub fn get(data: &[u8], metadata: &mut Vec<Tag>) -> (r: Result<(), Error>)
    ensures
        pushed(final(metadata)@, old(metadata)@, xmp(data@).0),
        r == xmp(data@).1,
{
    read(data, metadata, false)
}

/// Reads an XMP packet as `get` does, naming each tag by the element's
/// whole qualified name where `qualified`.
pub fn read(data: &[u8], metadata: &mut Vec<Tag>, qualified: bool) -> (r: Result<(), Error>)
    ensures
        pushed(final(metadata)@, old(metadata)@, xmp_named(data@, qualified).0),
        r == xmp_named(data@, qualified).1,
{
    let ghost start = metadata@;
    proof {
        lemma_pushed_none(metadata@);
    }
    let text = lossy(data);
    let bytes = text.as_str().as_bytes();
    let ghost d = bytes@;
    assert(d == packet(data@));
    let mut reader = XmlReader::open(bytes);
    let limit: u128 = bytes.len() as u128 + 1;
    let mut k: u128 = 0;
    let mut stack: Vec<(Vec<u8>, bool)> = Vec::new();
    let ghost mut done: Seq<(Seq<char>, Seq<char>)> = Seq::empty();
    assert(stack_view(stack@) =~= Seq::<(Seq<u8>, bool)>::empty());
    assert(Seq::<(Seq<char>, Seq<char>)>::empty() + xmp_named(data@, qualified).0 =~= xmp_named(data@, qualified).0);
    loop
        invariant
            reader.data() == d,
            reader.index() == k,
            k <= limit,
            limit == d.len() + 1,
            xmp_named(data@, qualified) == before(done, run(d, k as int, limit as int, stack_view(stack@), qualified)),
            pushed(metadata@, start, done),
            start == old(metadata)@,
        decreases limit - k,
    {
        if k >= limit {
            assert(done + Seq::<(Seq<char>, Seq<char>)>::empty() =~= done);
            return Err(Error::Metadata);
        }
        let event = reader.next();
        let ghost sv = stack_view(stack@);
        let n = stack.len();
        if n == 0 {
            match event.kind {
                XmlKind::Start => {
                    let code = code_of(event.name.as_slice());
                    let keep = is_kept(&code);
                    let ghost nm = event@.name;
                    stack.push((event.name, keep));
                    assert(stack_view(stack@) =~= seq![(nm, kept(xmp_code(nm)))]);
                    assert(run(d, k as int, limit as int, sv, qualified) == run(d, k + 1, limit as int, stack_view(stack@), qualified));
                },
                XmlKind::Eof => {
                    assert(done + Seq::<(Seq<char>, Seq<char>)>::empty() =~= done);
                    return Ok(());
                },
                XmlKind::Fail => {
                    assert(done + Seq::<(Seq<char>, Seq<char>)>::empty() =~= done);
                    return Err(Error::Metadata);
                },
                _ => {
                    assert(run(d, k as int, limit as int, sv, qualified) == run(d, k + 1, limit as int, stack_view(stack@), qualified));
                },
            }
        } else {
            let keep = stack[n - 1].1;
            assert(sv.last() == (stack@[n - 1].0@, keep));
            match event.kind {
                XmlKind::End => {
                    if same_bytes(event.name.as_slice(), stack[n - 1].0.as_slice()) {
                        stack.pop();
                        assert(stack_view(stack@) =~= sv.drop_last());
                        assert(run(d, k as int, limit as int, sv, qualified) == run(d, k + 1, limit as int, stack_view(stack@), qualified));
                    } else {
                        assert(done + Seq::<(Seq<char>, Seq<char>)>::empty() =~= done);
                        return Err(Error::Metadata);
                    }
                },
                XmlKind::Eof | XmlKind::Fail => {
                    assert(done + Seq::<(Seq<char>, Seq<char>)>::empty() =~= done);
                    return Err(Error::Metadata);
                },
                XmlKind::Start => {
                    let code = code_of(event.name.as_slice());
                    let inner = keep && is_kept(&code);
                    let ghost nm = event@.name;
                    stack.push((event.name, inner));
                    assert(stack_view(stack@) =~= sv.push((nm, keep && kept(xmp_code(nm)))));
                    assert(run(d, k as int, limit as int, sv, qualified) == run(d, k + 1, limit as int, stack_view(stack@), qualified));
                },
                XmlKind::Text => {
                    let blank_text = is_blank(event.name.as_slice());
                    if !keep || blank_text {
                        assert(run(d, k as int, limit as int, sv, qualified) == run(d, k + 1, limit as int, stack_view(stack@), qualified));
                    }
                    if keep && !blank_text {
                        let name = name_of(stack[n - 1].0.as_slice(), qualified);
                        let value = lossy(event.name.as_slice());
                        let ghost pair = (name@, value@);
                        push_pushed(metadata, name, value, Ghost(start), Ghost(done));
                        proof {
                            assert(done + (seq![pair] + run(d, k + 1, limit as int, sv, qualified).0) =~= done.push(pair) + run(d, k + 1, limit as int, sv, qualified).0);
                            done = done.push(pair);
                        }
                    }
                },
                _ => {
                    assert(run(d, k as int, limit as int, sv, qualified) == run(d, k + 1, limit as int, stack_view(stack@), qualified));
                },
            }
        }
        k += 1;
    }
}

} // verus!
