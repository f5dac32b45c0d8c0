use crate::{
    Error, Tag, view_tags, push_tag,
    text::{lossy, owned, same_bytes, utf8_lossy},
    utilities::stream::{Source, is_first_zero, seek, zero_from},
};
use vstd::prelude::*;

verus! {

/// The bit rates, in kilobits per second, that the four bits of a frame
/// header stand for (1 to 14), for MPEG-1 layers I, II and III, MPEG-2
/// layer I, and MPEG-2 layers II and III.
pub const BITRATES: [[u32; 14]; 5] = [
    [32, 64, 96, 128, 160, 192, 224, 256, 288, 320, 352, 384, 416, 448],
    [32, 48, 56, 64, 80, 96, 112, 128, 160, 192, 224, 256, 320, 384],
    [32, 40, 48, 56, 64, 80, 96, 112, 128, 160, 192, 224, 256, 320],
    [32, 48, 56, 64, 80, 96, 112, 128, 144, 160, 176, 192, 224, 256],
    [8, 16, 24, 32, 40, 48, 56, 64, 80, 96, 112, 128, 144, 160],
];

/// The sampling rates, in hertz, that two bits of a frame header stand for,
/// for MPEG-1 and MPEG-2.
pub const SAMPLE_RATES: [[u32; 3]; 2] = [[44100, 48000, 32000], [22050, 24000, 16000]];

/// The smallest frame that deletion examines as a possible Xing or Info
/// header.
pub const XING_SIZE: usize = 120;

/// The length of an MPEG audio frame whose header's last three bytes are
/// `b1`, `b2` and `b3`, and where a Xing or Info header would stand in its
/// data; `None` for a version, layer, bit rate or sampling rate that is not
/// supported.
pub open spec fn frame(b1: u8, b2: u8, b3: u8) -> Option<(int, int)> {
    let version = (b1 / 8) % 4;
    let layer = (b1 / 2) % 4;
    let rate = b2 / 16;
    let sampling = (b2 / 4) % 4;
    if version < 2 || layer == 0 || rate == 0 || rate == 15 || sampling == 3 {
        None
    } else {
        let v1 = version == 3;
        let class = if v1 { 3 - layer } else if layer == 3 { 3 } else { 4 };
        let bitrate = BITRATES@[class]@[rate - 1] * 1000;
        let samples: int = SAMPLE_RATES@[if v1 { 0int } else { 1int }]@[sampling as int] as int;
        let coefficient: int = if layer == 3 { 12 } else if layer == 2 || v1 { 144 } else { 72 };
        let mono = b3 / 64 == 3;
        let xing = if v1 { if mono { 17 } else { 32 } } else { if mono { 9 } else { 17 } };
        Some((coefficient * bitrate / samples + (b2 / 2) % 2, xing))
    }
}

/// Every frame is at least as long as its header.
pub proof fn lemma_frame_size(b1: u8, b2: u8, b3: u8)
    requires
        frame(b1, b2, b3) is Some,
    ensures
        frame(b1, b2, b3)->Some_0.0 >= 4,
{
    let version = (b1 / 8) % 4;
    let layer = (b1 / 2) % 4;
    let rate = b2 / 16;
    let sampling = (b2 / 4) % 4;
    let v1 = version == 3;
    let class = if v1 { 3 - layer } else if layer == 3 { 3 } else { 4 };
    let bitrate = BITRATES@[class]@[rate - 1] * 1000;
    let samples: int = SAMPLE_RATES@[if v1 { 0int } else { 1int }]@[sampling as int] as int;
    let coefficient: int = if layer == 3 { 12 } else if layer == 2 || v1 { 144 } else { 72 };
    assert(coefficient * bitrate >= 4 * 48000) by (nonlinear_arith)
        requires
            (coefficient == 12 && bitrate >= 32000) || (coefficient >= 72 && bitrate >= 8000),
    {
    }
    assert(coefficient * bitrate / samples >= 4) by (nonlinear_arith)
        requires
            coefficient * bitrate >= 4 * 48000,
            0 < samples <= 48000,
    {
    }
}

/// Reads a frame header: the frame's length and where a Xing or Info
/// header would stand in its data.
fn parse_header(header: &[u8]) -> (r: Result<(usize, usize), Error>)
    requires
        header@.len() == 4,
    ensures
        match frame(header@[1], header@[2], header@[3]) {
            None => r == Err::<(usize, usize), Error>(Error::File),
            Some((size, xing)) => r matches Ok((s, x)) && s == size && x == xing,
        },
{
    let b1 = header[1];
    let b2 = header[2];
    let b3 = header[3];
    let version = (b1 / 8) % 4;
    let layer = (b1 / 2) % 4;
    let rate = b2 / 16;
    let sampling = (b2 / 4) % 4;
    if version < 2 || layer == 0 || rate == 0 || rate == 15 || sampling == 3 {
        return Err(Error::File);
    }
    let v1 = version == 3;
    let class: usize = if v1 { (3 - layer) as usize } else if layer == 3 { 3 } else { 4 };
    let bitrate: u64 = BITRATES[class][(rate - 1) as usize] as u64 * 1000;
    let samples: u64 = SAMPLE_RATES[if v1 { 0 } else { 1 }][sampling as usize] as u64;
    let coefficient: u64 = if layer == 3 { 12 } else if layer == 2 || v1 { 144 } else { 72 };
    let mono = b3 / 64 == 3;
    let xing: usize = if v1 { if mono { 17 } else { 32 } } else { if mono { 9 } else { 17 } };
    assert(bitrate <= 448000 && samples >= 16000) by {
        assert(BITRATES@[class as int]@[rate - 1] <= 448);
    }
    let size = coefficient * bitrate / samples + ((b2 / 2) % 2) as u64;
    assert(size <= 144 * 448000) by (nonlinear_arith)
        requires
            coefficient <= 144,
            bitrate <= 448000,
            samples >= 16000,
            size == (coefficient * bitrate) as int / samples as int + (b2 / 2) % 2,
    {
    }
    Ok((size as usize, xing))
}

/// The number that four bytes spell seven bits each, as ID3 tags give
/// their sizes.
pub open spec fn syncsafe(a: u8, b: u8, c: u8, e: u8) -> int {
    a * 2097152 + b * 16384 + c * 128 + e
}

/// The genres that an ID3v1 tag numbers.
pub const GENRES: [&'static str; 192] = [
    "Blues", "Classic Rock", "Country", "Dance", "Disco", "Funk", "Grunge", "Hip-Hop", "Jazz",
    "Metal", "New Age", "Oldies", "Other", "Pop", "R&B", "Rap", "Reggae", "Rock", "Techno",
    "Industrial", "Alternative", "Ska", "Death Metal", "Pranks", "Soundtrack", "Euro-Techno",
    "Ambient", "Trip-Hop", "Vocal", "Jazz & Funk", "Fusion", "Trance", "Classical", "Instrumental",
    "Acid", "House", "Game", "Sound Clip", "Gospel", "Noise", "Alternative Rock", "Bass", "Soul",
    "Punk", "Space", "Meditative", "Instrumental Pop", "Instrumental Rock", "Ethnic", "Gothic",
    "Darkwave", "Techno-Industrial", "Electronic", "Pop-Folk", "Eurodance", "Dream",
    "Southern Rock", "Comedy", "Cult", "Gangsta", "Top 40", "Christian Rap", "Pop/Funk", "Jungle",
    "Native US", "Cabaret", "New Wave", "Psychadelic", "Rave", "Showtunes", "Trailer", "Lo-Fi",
    "Tribal", "Acid Punk", "Acid Jazz", "Polka", "Retro", "Musical", "Rock 'n' Roll", "Hard Rock",
    "Folk", "Folk-Rock", "National Folk", "Swing", "Fast Fusion", "Bebop", "Latin", "Revival",
    "Celtic", "Bluegrass", "Avantgarde", "Gothic Rock", "Progressive Rock", "Psychedelic Rock",
    "Symphonic Rock", "Slow Rock", "Big Band", "Chorus", "Easy Listening", "Acoustic", "Humour",
    "Speech", "Chanson", "Opera", "Chamber Music", "Sonata", "Symphony", "Booty Bass", "Primus",
    "Porn Groove", "Satire", "Slow Jam", "Club", "Tango", "Samba", "Folklore", "Ballad",
    "Power Ballad", "Rhythmic Soul", "Freestyle", "Duet", "Punk Rock", "Drum Solo", "A capella",
    "Euro-House", "Dance Hall", "Goa", "Drum & Bass", "Club-House", "Hardcore Techno", "Terror",
    "Indie", "BritPop", "Negerpunk", "Polsk Punk", "Beat", "Christian Gangsta Rap", "Heavy Metal",
    "Black Metal", "Crossover", "Contemporary Christian", "Christian Rock", "Merengue", "Salsa",
    "Thrash Metal", "Anime", "Jpop", "Synthpop", "Abstract", "Art Rock", "Baroque", "Bhangra",
    "Big Beat", "Breakbeat", "Chillout", "Downtempo", "Dub", "EBM", "Eclectic", "Electro",
    "Electroclash", "Emo", "Experimental", "Garage", "Global", "IDM", "Illbient", "Industro-Goth",
    "Jam Band", "Krautrock", "Leftfield", "Lounge", "Math Rock", "New Romantic", "Nu-Breakz",
    "Post-Punk", "Post-Rock", "Psytrance", "Shoegaze", "Space Rock", "Trop Rock", "World Music",
    "Neoclassical", "Audiobook", "Audio Theatre", "Neue Deutsche Welle", "Podcast", "Indie Rock",
    "G-Funk", "Dubstep", "Garage Rock", "Psybient",
];

/// The genre that an ID3v1 tag's number stands for.
pub open spec fn genre_name(value: u8) -> Seq<char> {
    if value < 192 { GENRES@[value as int]@ } else { "UNKNOWN"@ }
}

/// The genre that an ID3v1 tag's number stands for.
fn genre(value: u8) -> (r: String)
    ensures
        r@ == genre_name(value),
{
    if value < 192 {
        owned(GENRES[value as usize])
    } else {
        owned("UNKNOWN")
    }
}

/// A text field of an ID3v1 tag, `n` bytes at `q`: the text up to its
/// first zero byte, as a tag named `name`, where there is any.
pub open spec fn field(d: Seq<u8>, q: int, n: int, name: Seq<char>) -> Seq<(Seq<char>, Seq<char>)> {
    let data = d.subrange(q, q + n);
    let size = match zero_from(data, 0) {
        Some(z) => z,
        None => n,
    };
    if size > 0 { seq![(name, utf8_lossy(data.subrange(0, size)))] } else { Seq::empty() }
}

/// The tags of an ID3v1 tag whose fields start at `q`.
pub open spec fn id3v1(d: Seq<u8>, q: int) -> Seq<(Seq<char>, Seq<char>)> {
    field(d, q, 30, "Title"@) + field(d, q + 30, 30, "Artist"@) + field(d, q + 60, 30, "Album"@)
        + field(d, q + 90, 4, "Year"@) + field(d, q + 94, 30, "Comment"@)
        + seq![("Genre"@, genre_name(d[q + 124]))]
}

/// Where an ID3v2 tag whose header starts at `p` ends, or the error.
pub open spec fn id3v2_end(d: Seq<u8>, p: int) -> Result<int, Error> {
    let len = d.len() as int;
    let q = seek(len, p + 4, 2);
    if q + 4 > len {
        Err(Error::File)
    } else {
        Ok(seek(len, q + 4, syncsafe(d[q], d[q + 1], d[q + 2], d[q + 3])))
    }
}

/// Reading the item at `p` (there is at least a byte left): an audio frame,
/// an ID3v2 tag or an ID3v1 tag; the tags it gives and where the next item
/// starts, or the error.
pub open spec fn item(d: Seq<u8>, p: int) -> Result<(Seq<(Seq<char>, Seq<char>)>, int), Error> {
    let len = d.len() as int;
    if p + 4 > len {
        Err(Error::File)
    } else if d[p] == 0xFF {
        match frame(d[p + 1], d[p + 2], d[p + 3]) {
            None => Err(Error::File),
            Some((size, _)) => Ok((Seq::empty(), seek(len, p, size))),
        }
    } else if d[p] == 0x49 && d[p + 1] == 0x44 && d[p + 2] == 0x33 {
        match id3v2_end(d, p) {
            Err(e) => Err(e),
            Ok(q) => Ok((Seq::empty(), q)),
        }
    } else if d[p] == 0x54 && d[p + 1] == 0x41 && d[p + 2] == 0x47 {
        if p + 3 + 125 > len {
            Err(Error::File)
        } else {
            Ok((id3v1(d, p + 3), p + 3 + 125))
        }
    } else {
        Err(Error::File)
    }
}

/// Every item read ends after it starts.
pub proof fn lemma_item_advances(d: Seq<u8>, p: int)
    requires
        0 <= p < d.len(),
        item(d, p) is Ok,
    ensures
        p < item(d, p)->Ok_0.1 <= d.len(),
{
    if d[p] == 0xFF {
        lemma_frame_size(d[p + 1], d[p + 2], d[p + 3]);
    }
}

/// Tags in front of the outcome of the rest of a reading.
pub open spec fn ahead(tags: Seq<(Seq<char>, Seq<char>)>, rest: Result<Seq<(Seq<char>, Seq<char>)>, Error>) -> Result<Seq<(Seq<char>, Seq<char>)>, Error> {
    match rest {
        Err(e) => Err(e),
        Ok(more) => Ok(tags + more),
    }
}

/// Reading the items of an MPEG audio file from `p` on: the tags, or the
/// error.
pub open spec fn items(d: Seq<u8>, p: int) -> Result<Seq<(Seq<char>, Seq<char>)>, Error>
    decreases d.len() - p,
{
    if p >= d.len() || p < 0 {
        Ok(Seq::empty())
    } else {
        match item(d, p) {
            Err(e) => Err(e),
            Ok((tags, q)) => {
                proof {
                    lemma_item_advances(d, p);
                }
                ahead(tags, items(d, q))
            },
        }
    }
}

/// Reading an MPEG audio file: the tags of its ID3v1 tags, or the error.
pub open spec fn mp3(d: Seq<u8>) -> Result<Seq<(Seq<char>, Seq<char>)>, Error> {
    items(d, 0)
}

/// Reads a text field of an ID3v1 tag, appending it where it is not empty.
fn read_field(source: &mut Source, n: u64, name: &str, metadata: &mut Vec<Tag>) -> (r: Result<(), Error>)
    requires
        old(source).wf(),
        old(source).position + n <= old(source).data@.len(),
    ensures
        final(source).wf(),
        final(source).data@ == old(source).data@,
        final(source).position == old(source).position + n,
        r is Ok,
        view_tags(final(metadata)@) == view_tags(old(metadata)@) + field(old(source).data@, old(source).position as int, n as int, name@),
{
    let ghost d = source.data@;
    let ghost q = source.position as int;
    let ghost before = metadata@;
    let data = source.take(n)?;
    let len = data.len();
    let mut size: usize = 0;
    while size < len && data[size] != 0
        invariant
            size <= len,
            len == data@.len(),
            forall|j: int| 0 <= j < size ==> data@[j] != 0,
        decreases len - size,
    {
        size += 1;
    }
    proof {
        if size < len {
            assert(is_first_zero(data@, 0, size as int));
        } else {
            assert(!exists|z: int| is_first_zero(data@, 0, z)) by {
                if exists|z: int| is_first_zero(data@, 0, z) {
                    let z = choose|z: int| is_first_zero(data@, 0, z);
                    assert(data@[z] != 0);
                }
            }
        }
        let c = zero_from(data@, 0);
        if let Some(z) = c {
            assert(z == size) by {
                assert(is_first_zero(data@, 0, z));
                if z < size {
                    assert(data@[z] != 0);
                } else if z > size {
                    assert(data@[size as int] != 0);
                }
            }
        }
    }
    if size > 0 {
        let value = lossy(&data[0..size]);
        let tag_name = owned(name);
        let ghost tag = (tag_name@, value@);
        push_tag(metadata, tag_name, value);
        assert(view_tags(before).push(tag) =~= view_tags(before) + seq![tag]);
    } else {
        assert(view_tags(before) + Seq::<(Seq<char>, Seq<char>)>::empty() =~= view_tags(before));
    }
    Ok(())
}

/// Reads the item at the source's position, appending its tags; gives the
/// tags appended.
#[verifier::rlimit(40)]
fn read_item(source: &mut Source, metadata: &mut Vec<Tag>) -> (r: Result<Ghost<Seq<(Seq<char>, Seq<char>)>>, Error>)
    requires
        old(source).wf(),
        old(source).position < old(source).data@.len(),
    ensures
        final(source).wf(),
        final(source).data@ == old(source).data@,
        match item(old(source).data@, old(source).position as int) {
            Err(e) => r == Err::<Ghost<Seq<(Seq<char>, Seq<char>)>>, Error>(e),
            Ok((tags, q)) => r matches Ok(g) && g@ == tags && final(source).position == q
                && view_tags(final(metadata)@) == view_tags(old(metadata)@) + tags,
        },
{
    let ghost d = source.data@;
    let ghost before = metadata@;
    assert(view_tags(before) + Seq::<(Seq<char>, Seq<char>)>::empty() =~= view_tags(before));
    let p = source.position;
    let header = source.take(4)?;
    if header[0] == 0xFF {
        let (size, _) = parse_header(header)?;
        source.back(4);
        source.skip(size as u64);
        Ok(Ghost(Seq::empty()))
    } else if header[0] == 0x49 && header[1] == 0x44 && header[2] == 0x33 {
        source.skip(2);
        let b = source.take(4)?;
        let size: u64 = b[0] as u64 * 2097152 + b[1] as u64 * 16384 + b[2] as u64 * 128 + b[3] as u64;
        source.skip(size);
        Ok(Ghost(Seq::empty()))
    } else if header[0] == 0x54 && header[1] == 0x41 && header[2] == 0x47 {
        source.back(1);
        let q = source.position;
        if source.data.len() - q < 125 {
            return Err(Error::File);
        }
        let ghost m0 = metadata@;
        read_field(source, 30, "Title", metadata);
        read_field(source, 30, "Artist", metadata);
        read_field(source, 30, "Album", metadata);
        read_field(source, 4, "Year", metadata);
        read_field(source, 30, "Comment", metadata);
        let g = source.take(1)?;
        let genre_value = genre(g[0]);
        let genre_tag = owned("Genre");
        let ghost last = (genre_tag@, genre_value@);
        let ghost m5 = metadata@;
        push_tag(metadata, genre_tag, genre_value);
        proof {
            let t = id3v1(d, q as int);
            assert(view_tags(metadata@) =~= view_tags(before) + t);
        }
        Ok(Ghost(id3v1(d, q as int)))
    } else {
        Err(Error::File)
    }
}

/// Reads the metadata of an MPEG audio file: the tags of its ID3v1 tags.
/// ID3v2 tags and audio frames are passed over.
pub fn get(data: &[u8]) -> (r: Result<Vec<Tag>, Error>)
    ensures
        match mp3(data@) {
            Ok(tags) => r matches Ok(v) && view_tags(v@) == tags,
            Err(e) => r == Err::<Vec<Tag>, Error>(e),
        },
{
    let ghost d = data@;
    let mut source = Source::new(data);
    let mut metadata: Vec<Tag> = Vec::new();
    assert(view_tags(metadata@) =~= Seq::<(Seq<char>, Seq<char>)>::empty());
    proof {
        match mp3(d) {
            Ok(tags) => {
                assert(Seq::<(Seq<char>, Seq<char>)>::empty() + tags =~= tags);
            },
            _ => {},
        }
    }
    loop
        invariant
            source.wf(),
            source.data@ == d,
            d == data@,
            mp3(d) == ahead(view_tags(metadata@), items(d, source.position as int)),
        decreases d.len() - source.position,
    {
        let ghost before = view_tags(metadata@);
        let ghost p = source.position as int;
        if source.at_end() {
            assert(before + Seq::<(Seq<char>, Seq<char>)>::empty() =~= before);
            return Ok(metadata);
        }
        let added = read_item(&mut source, &mut metadata);
        match added {
            Err(e) => {
                return Err(e);
            },
            Ok(g) => {
                proof {
                    lemma_item_advances(d, p);
                    match items(d, source.position as int) {
                        Ok(more) => {
                            assert(before + (g@ + more) =~= (before + g@) + more);
                        },
                        _ => {},
                    }
                }
            },
        }
    }
}

/// The name that marks a Xing or Info header: "Info" or "Xing" at `at`.
pub open spec fn xing_named(d: Seq<u8>, at: int) -> bool {
    let n = d.subrange(at, at + 4);
    n == seq![0x49u8, 0x6E, 0x66, 0x6F] || n == seq![0x58u8, 0x69, 0x6E, 0x67]
}

/// Bytes in front of the outcome of the rest of a removal.
pub open spec fn ahead_bytes(done: Seq<u8>, rest: Result<Seq<u8>, Error>) -> Result<Seq<u8>, Error> {
    match rest {
        Err(e) => Err(e),
        Ok(more) => Ok(done + more),
    }
}

/// The items from `p` on that removing metadata keeps, or the error: every
/// audio frame, as far as the file holds it, but for a first frame that
/// holds a Xing or Info header (`start` while no frame was met yet); ID3v2
/// tags are dropped, and an ID3v1 tag ends the audio.
pub open spec fn kept_items(d: Seq<u8>, p: int, start: bool) -> Result<Seq<u8>, Error>
    decreases d.len() - p,
{
    let len = d.len() as int;
    if p >= len || p < 0 {
        Ok(Seq::empty())
    } else if p + 4 > len {
        Err(Error::File)
    } else if d[p] == 0xFF {
        match frame(d[p + 1], d[p + 2], d[p + 3]) {
            None => Err(Error::File),
            Some((size, x)) => {
                proof {
                    lemma_frame_size(d[p + 1], d[p + 2], d[p + 3]);
                }
                if start && size >= 120 {
                    if p + 40 > len {
                        Err(Error::File)
                    } else if xing_named(d, p + 4 + x) {
                        kept_items(d, seek(len, p + 40, size - 40), false)
                    } else {
                        let e = seek(len, p + 40, size - 40);
                        ahead_bytes(d.subrange(p, e), kept_items(d, e, false))
                    }
                } else {
                    let e = seek(len, p + 4, size - 4);
                    ahead_bytes(d.subrange(p, e), kept_items(d, e, false))
                }
            },
        }
    } else if d[p] == 0x49 && d[p + 1] == 0x44 && d[p + 2] == 0x33 {
        match id3v2_end(d, p) {
            Err(e) => Err(e),
            Ok(q) => {
                proof {
                    lemma_item_advances(d, p);
                }
                kept_items(d, q, start)
            },
        }
    } else if d[p] == 0x54 && d[p + 1] == 0x41 && d[p + 2] == 0x47 {
        Ok(Seq::empty())
    } else {
        Err(Error::File)
    }
}

/// Removing the metadata of an MPEG audio file: the audio frames kept, or
/// the error.
pub open spec fn mp3_delete(d: Seq<u8>) -> Result<Seq<u8>, Error> {
    kept_items(d, 0, true)
}

/// The name "Info".
pub const INFO: [u8; 4] = [0x49, 0x6E, 0x66, 0x6F];

/// The name "Xing".
pub const XING: [u8; 4] = [0x58, 0x69, 0x6E, 0x67];

/// Removes the metadata of an MPEG audio file: keeps the audio frames but
/// for a leading Xing or Info frame, drops ID3v2 tags, and stops at an
/// ID3v1 tag.
#[verifier::rlimit(40)]
pub fn delete(data: &[u8]) -> (r: Result<Vec<u8>, Error>)
    ensures
        match mp3_delete(data@) {
            Ok(o) => r matches Ok(v) && v@ == o,
            Err(e) => r == Err::<Vec<u8>, Error>(e),
        },
{
    let ghost d = data@;
    let mut out: Vec<u8> = Vec::new();
    let mut source = Source::new(data);
    let mut start = true;
    proof {
        match kept_items(d, 0, true) {
            Ok(rest) => {
                assert(out@ + rest =~= rest);
            },
            _ => {},
        }
    }
    loop
        invariant
            source.wf(),
            source.data@ == d,
            d == data@,
            mp3_delete(d) == ahead_bytes(out@, kept_items(d, source.position as int, start)),
        decreases d.len() - source.position,
    {
        let p = source.position;
        let ghost before = out@;
        if source.at_end() {
            assert(out@ + Seq::<u8>::empty() =~= out@);
            return Ok(out);
        }
        let header = source.take(4)?;
        if header[0] == 0xFF {
            let (size, x) = parse_header(header)?;
            proof {
                lemma_frame_size(d[p + 1], d[p + 2], d[p + 3]);
            }
            if start && size >= XING_SIZE {
                start = false;
                let block = source.take(36)?;
                let name = &block[x..x + 4];
                assert(name@ =~= d.subrange(p + 4 + x, p + 4 + x + 4));
                if same_bytes(name, INFO.as_slice()) || same_bytes(name, XING.as_slice()) {
                    source.skip(size as u64 - 40);
                } else {
                    out.extend_from_slice(header);
                    out.extend_from_slice(block);
                    source.copy_to(size as u64 - 40, &mut out);
                    proof {
                        let e = source.position as int;
                        assert(out@ =~= before + d.subrange(p as int, e));
                        match kept_items(d, e, false) {
                            Ok(rest) => {
                                assert(before + (d.subrange(p as int, e) + rest) =~= out@ + rest);
                            },
                            _ => {},
                        }
                    }
                }
            } else {
                start = false;
                out.extend_from_slice(header);
                source.copy_to(size as u64 - 4, &mut out);
                proof {
                    let e = source.position as int;
                    assert(out@ =~= before + d.subrange(p as int, e));
                    match kept_items(d, e, false) {
                        Ok(rest) => {
                            assert(before + (d.subrange(p as int, e) + rest) =~= out@ + rest);
                        },
                        _ => {},
                    }
                }
            }
        } else if header[0] == 0x49 && header[1] == 0x44 && header[2] == 0x33 {
            source.skip(2);
            let b = source.take(4)?;
            let size: u64 = b[0] as u64 * 2097152 + b[1] as u64 * 16384 + b[2] as u64 * 128 + b[3] as u64;
            source.skip(size);
        } else if header[0] == 0x54 && header[1] == 0x41 && header[2] == 0x47 {
            assert(out@ + Seq::<u8>::empty() =~= out@);
            return Ok(out);
        } else {
            return Err(Error::File);
        }
    }
}

/// From `q` to its end, `o` is a run of audio frames, each whole but for
/// the last, which may be cut short by the end of the file.
pub open spec fn frames_from(o: Seq<u8>, q: int) -> bool
    decreases o.len() - q,
{
    if q < 0 {
        false
    } else if q >= o.len() {
        q == o.len()
    } else {
        &&& q + 4 <= o.len()
        &&& o[q] == 0xFF
        &&& frame(o[q + 1], o[q + 2], o[q + 3]) is Some
        &&& ({
            let size = frame(o[q + 1], o[q + 2], o[q + 3])->Some_0.0;
            proof {
                lemma_frame_size(o[q + 1], o[q + 2], o[q + 3]);
            }
            frames_from(o, seek(o.len() as int, q, size))
        })
    }
}

/// What removing metadata keeps from `p` on, behind any prefix, is a run
/// of audio frames.
proof fn lemma_kept_items_form(d: Seq<u8>, p: int, start: bool, a: Seq<u8>)
    requires
        kept_items(d, p, start) is Ok,
    ensures
        frames_from(a + kept_items(d, p, start)->Ok_0, a.len() as int),
    decreases d.len() - p,
{
    let len = d.len() as int;
    if p >= len || p < 0 {
        assert(a + Seq::<u8>::empty() =~= a);
    } else if d[p] == 0xFF {
        let (size, x) = frame(d[p + 1], d[p + 2], d[p + 3])->Some_0;
        lemma_frame_size(d[p + 1], d[p + 2], d[p + 3]);
        if start && size >= 120 && xing_named(d, p + 4 + x) {
            lemma_kept_items_form(d, seek(len, p + 40, size - 40), false, a);
        } else {
            let e = if start && size >= 120 { seek(len, p + 40, size - 40) } else { seek(len, p + 4, size - 4) };
            let chunk = d.subrange(p, e);
            let rest2 = kept_items(d, e, false)->Ok_0;
            lemma_kept_items_form(d, e, false, a + chunk);
            let o = a + kept_items(d, p, start)->Ok_0;
            let q = a.len() as int;
            assert(o =~= (a + chunk) + rest2);
            assert(o[q] == d[p] && o[q + 1] == d[p + 1] && o[q + 2] == d[p + 2] && o[q + 3] == d[p + 3]);
            if e == len {
                assert(rest2 =~= Seq::<u8>::empty());
            }
        }
    } else if d[p] == 0x49 && d[p + 1] == 0x44 && d[p + 2] == 0x33 {
        lemma_item_advances(d, p);
        lemma_kept_items_form(d, id3v2_end(d, p)->Ok_0, start, a);
    } else {
        assert(a + Seq::<u8>::empty() =~= a);
    }
}

/// Over a run of audio frames, reading metadata finds no tag.
proof fn lemma_frames_read(o: Seq<u8>, q: int)
    requires
        frames_from(o, q),
    ensures
        items(o, q) == Ok::<Seq<(Seq<char>, Seq<char>)>, Error>(Seq::empty()),
    decreases o.len() - q,
{
    if q < o.len() {
        let size = frame(o[q + 1], o[q + 2], o[q + 3])->Some_0.0;
        lemma_frame_size(o[q + 1], o[q + 2], o[q + 3]);
        lemma_frames_read(o, seek(o.len() as int, q, size));
        let empty = Seq::<(Seq<char>, Seq<char>)>::empty();
        assert(empty + empty =~= empty);
    }
}

/// Over a run of audio frames met after the first frame, removing metadata
/// keeps everything.
proof fn lemma_frames_kept(o: Seq<u8>, q: int)
    requires
        frames_from(o, q),
    ensures
        kept_items(o, q, false) == Ok::<Seq<u8>, Error>(o.subrange(q, o.len() as int)),
    decreases o.len() - q,
{
    if q >= o.len() {
        assert(o.subrange(q, o.len() as int) =~= Seq::<u8>::empty());
    } else {
        let size = frame(o[q + 1], o[q + 2], o[q + 3])->Some_0.0;
        lemma_frame_size(o[q + 1], o[q + 2], o[q + 3]);
        let e = seek(o.len() as int, q, size);
        lemma_frames_kept(o, e);
        assert(o.subrange(q, e) + o.subrange(e, o.len() as int) =~= o.subrange(q, o.len() as int));
    }
}

/// An MPEG audio file whose metadata was removed carries no metadata:
/// reading it gives no tag.
pub proof fn lemma_delete_leaves_nothing(d: Seq<u8>, o: Seq<u8>)
    requires
        mp3_delete(d) == Ok::<Seq<u8>, Error>(o),
    ensures
        mp3(o) == Ok::<Seq<(Seq<char>, Seq<char>)>, Error>(Seq::empty()),
{
    lemma_kept_items_form(d, 0, true, Seq::empty());
    assert(Seq::<u8>::empty() + o =~= o);
    lemma_frames_read(o, 0);
}

/// The first frame of `o` is one that removing metadata examines as a
/// possible Xing or Info header.
pub open spec fn examined(o: Seq<u8>) -> bool {
    &&& o.len() >= 4
    &&& o[0] == 0xFF
    &&& frame(o[1], o[2], o[3]) matches Some((size, _)) && size >= 120
}

/// Removing the metadata of an MPEG audio file a second time changes
/// nothing, unless the first frame left is one that removal examines as a
/// possible Xing or Info header.
pub proof fn lemma_delete_idempotent(d: Seq<u8>, o: Seq<u8>)
    requires
        mp3_delete(d) == Ok::<Seq<u8>, Error>(o),
    ensures
        mp3_delete(o) == Ok::<Seq<u8>, Error>(o) || examined(o),
{
    lemma_kept_items_form(d, 0, true, Seq::empty());
    assert(Seq::<u8>::empty() + o =~= o);
    if o.len() > 0 && !examined(o) {
        let size = frame(o[1], o[2], o[3])->Some_0.0;
        lemma_frame_size(o[1], o[2], o[3]);
        let e = seek(o.len() as int, 0, size);
        lemma_frames_kept(o, e);
        assert(o.subrange(0, e) + o.subrange(e, o.len() as int) =~= o);
    } else if o.len() == 0 {
    }
}

} // verus!
