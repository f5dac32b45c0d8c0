//! Reading and removing the metadata that image, audio, document and office
//! files carry: EXIF, IPTC, XMP, PNG text chunks, ID3 tags, PDF information
//! dictionaries and Office document properties.
use vstd::prelude::*;

pub mod error;
pub mod metadata;
pub mod options;
pub mod text;
pub mod xml;
pub mod utilities;

pub use error::Error;
pub use metadata::Metadata;

verus! {

/// The name given to a tag or a value that the library does not recognise.
pub const UNKNOWN: &'static str = "Unknown";

/// One piece of metadata: a name and its value, both as text.
#[derive(Debug, PartialEq, Eq)]
pub struct Tag {
    pub name: String,
    pub value: String,
}

impl View for Tag {
    type V = (Seq<char>, Seq<char>);

    open spec fn view(&self) -> (Seq<char>, Seq<char>) {
        (self.name@, self.value@)
    }
}

impl Tag {
    /// The tag as one line of text: its name, a colon, a space and its
    /// value.
    pub fn text(&self) -> (r: String)
        ensures
            r@ == self.name@ + ": "@ + self.value@,
    {
        let mut line = text::owned(self.name.as_str());
        text::append(&mut line, ": ");
        text::append(&mut line, self.value.as_str());
        line
    }
}

/// The tags of a list, each by its name and its value.
pub open spec fn view_tags(tags: Seq<Tag>) -> Seq<(Seq<char>, Seq<char>)> {
    tags.map_values(|t: Tag| t@)
}

/// The list of tags that a list of name and value pairs stands for.
pub open spec fn pushed(tags: Seq<Tag>, old_tags: Seq<Tag>, added: Seq<(Seq<char>, Seq<char>)>) -> bool {
    &&& tags.len() == old_tags.len() + added.len()
    &&& tags.take(old_tags.len() as int) == old_tags
    &&& view_tags(tags.skip(old_tags.len() as int)) == added
}

/// The text that `ratio` makes of a fraction with numerator `n` and
/// denominator `d`: the value given to rational EXIF entries.
pub open spec fn ratio_text<F: Fn(i64, i64) -> String>(ratio: F, n: int, d: int) -> Seq<char> {
    (choose|r: String| #[trigger] call_ensures(ratio, (n as i64, d as i64), r))@
}

/// `ratio` can be called on every fraction and always gives the same text
/// for the same fraction.
pub open spec fn renders<F: Fn(i64, i64) -> String>(ratio: F) -> bool {
    &&& forall|n: i64, d: i64| call_requires(ratio, (n, d))
    &&& forall|n: i64, d: i64, r1: String, r2: String|
        #[trigger] call_ensures(ratio, (n, d), r1) && #[trigger] call_ensures(ratio, (n, d), r2)
            ==> r1@ == r2@
}

/// Renders a fraction with `ratio`.
pub fn render_ratio<F: Fn(i64, i64) -> String>(ratio: &F, n: i64, d: i64) -> (r: String)
    requires
        renders(*ratio),
    ensures
        r@ == ratio_text(*ratio, n as int, d as int),
{
    let r = ratio(n, d);
    proof {
        let c = choose|c: String| #[trigger] call_ensures(*ratio, (n, d), c);
        assert(call_ensures(*ratio, (n, d), c));
    }
    r
}

/// Appends a tag to a list.
pub fn push_tag(tags: &mut Vec<Tag>, name: String, value: String)
    ensures
        final(tags)@ == old(tags)@.push(Tag { name, value }),
        view_tags(final(tags)@) == view_tags(old(tags)@).push((name@, value@)),
{
    let ghost before = tags@;
    tags.push(Tag { name, value });
    assert(view_tags(tags@) =~= view_tags(before).push((name@, value@)));
}

proof fn lemma_pushed_step(tags: Seq<Tag>, old_tags: Seq<Tag>, added: Seq<(Seq<char>, Seq<char>)>, t: Tag)
    requires
        pushed(tags, old_tags, added),
    ensures
        pushed(tags.push(t), old_tags, added.push(t@)),
{
    let n = old_tags.len() as int;
    assert(tags.push(t).take(n) =~= tags.take(n));
    assert(tags.push(t).skip(n) =~= tags.skip(n).push(t));
    assert(view_tags(tags.skip(n).push(t)) =~= view_tags(tags.skip(n)).push(t@));
}

/// Appends a tag, keeping track of what was appended since `old_tags`.
pub fn push_pushed(tags: &mut Vec<Tag>, name: String, value: String, Ghost(old_tags): Ghost<Seq<Tag>>, Ghost(added): Ghost<Seq<(Seq<char>, Seq<char>)>>)
    requires
        pushed(old(tags)@, old_tags, added),
    ensures
        pushed(final(tags)@, old_tags, added.push((name@, value@))),
{
    let ghost t = Tag { name, value };
    proof {
        lemma_pushed_step(tags@, old_tags, added, t);
    }
    tags.push(Tag { name, value });
}

/// Nothing has been appended to a list since it stood as it does.
pub proof fn lemma_pushed_none(tags: Seq<Tag>)
    ensures
        pushed(tags, tags, Seq::empty()),
{
    assert(tags.take(tags.len() as int) =~= tags);
    assert(view_tags(tags.skip(tags.len() as int)) =~= Seq::empty());
}

/// Appending in two steps appends the concatenation.
pub proof fn lemma_pushed_trans(a: Seq<Tag>, b: Seq<Tag>, c: Seq<Tag>, x: Seq<(Seq<char>, Seq<char>)>, y: Seq<(Seq<char>, Seq<char>)>)
    requires
        pushed(b, a, x),
        pushed(c, b, y),
    ensures
        pushed(c, a, x + y),
{
    let n = a.len() as int;
    let m = b.len() as int;
    assert(c.take(n) =~= c.take(m).take(n));
    assert(c.skip(n) =~= b.skip(n) + c.skip(m)) by {
        assert(c.take(m) == b);
    }
    assert(view_tags(b.skip(n) + c.skip(m)) =~= view_tags(b.skip(n)) + view_tags(c.skip(m)));
}

/// What was appended, seen through the tags' views.
pub proof fn lemma_pushed_view(tags: Seq<Tag>, old_tags: Seq<Tag>, added: Seq<(Seq<char>, Seq<char>)>)
    requires
        pushed(tags, old_tags, added),
    ensures
        view_tags(tags) == view_tags(old_tags) + added,
{
    let n = old_tags.len() as int;
    assert(tags =~= tags.take(n) + tags.skip(n));
    assert(view_tags(tags.take(n) + tags.skip(n)) =~= view_tags(tags.take(n)) + view_tags(tags.skip(n)));
}

} // verus!
