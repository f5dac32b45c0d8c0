use crate::{Error, utilities::bytes::{be16, be32}};
use vstd::prelude::*;

verus! {

/// Where a forward seek of `n` bytes from `p` lands in a file of `len`
/// bytes: seeking past the end leaves nothing more to read, as if at the end.
pub open spec fn seek(len: int, p: int, n: int) -> int {
    if p + n <= len { p + n } else { len }
}

/// A file held in memory, read from a position that never passes its end.
pub struct Source<'a> {
    pub data: &'a [u8],
    pub position: usize,
}

impl<'a> Source<'a> {
    /// The position lies within the data.
    pub open spec fn wf(&self) -> bool {
        self.position <= self.data@.len()
    }

    /// A source at the start of `data`.
    pub fn new(data: &'a [u8]) -> (r: Source<'a>)
        ensures
            r.data@ == data@,
            r.position == 0,
    {
        Source { data, position: 0 }
    }

    /// Whether nothing is left to read.
    pub fn at_end(&self) -> (r: bool)
        requires
            self.wf(),
        ensures
            r == (self.position == self.data@.len()),
    {
        self.position == self.data.len()
    }

    /// Moves `n` bytes forward, to the end at most.
    pub fn skip(&mut self, n: u64)
        requires
            old(self).wf(),
        ensures
            final(self).wf(),
            final(self).data@ == old(self).data@,
            final(self).position == seek(old(self).data@.len() as int, old(self).position as int, n as int),
    {
        let left = (self.data.len() - self.position) as u64;
        if n <= left {
            self.position = self.position + n as usize;
        } else {
            self.position = self.data.len();
        }
    }

    /// Moves `n` bytes back.
    pub fn back(&mut self, n: usize)
        requires
            old(self).wf(),
            n <= old(self).position,
        ensures
            final(self).wf(),
            final(self).data@ == old(self).data@,
            final(self).position == old(self).position - n,
    {
        self.position = self.position - n;
    }

    /// Reads the next `n` bytes; fails where fewer are left.
    pub fn take(&mut self, n: u64) -> (r: Result<&'a [u8], Error>)
        requires
            old(self).wf(),
        ensures
            final(self).wf(),
            final(self).data@ == old(self).data@,
            old(self).position + n <= old(self).data@.len() ==> (r matches Ok(s) && s@ == old(
                self,
            ).data@.subrange(old(self).position as int, old(self).position + n) && final(self).position
                == old(self).position + n),
            old(self).position + n > old(self).data@.len() ==> r == Err::<&[u8], Error>(Error::File)
                && final(self).position == old(self).position,
    {
        let left = (self.data.len() - self.position) as u64;
        if n <= left {
            let start = self.position;
            let end = start + n as usize;
            self.position = end;
            Ok(&self.data[start..end])
        } else {
            Err(Error::File)
        }
    }

    /// Copies the next `n` bytes to `out`, or what is left where fewer are.
    pub fn copy_to(&mut self, n: u64, out: &mut Vec<u8>)
        requires
            old(self).wf(),
        ensures
            final(self).wf(),
            final(self).data@ == old(self).data@,
            final(self).position == seek(old(self).data@.len() as int, old(self).position as int, n as int),
            final(out)@ == old(out)@ + old(self).data@.subrange(old(self).position as int, final(self).position as int),
    {
        let start = self.position;
        self.skip(n);
        let end = self.position;
        out.extend_from_slice(&self.data[start..end]);
    }
}

/// Numbers read from a source, in one byte order.
pub trait Bytes {
    spec fn spec_u16(a: u8, b: u8) -> int;

    spec fn spec_u32(a: u8, b: u8, c: u8, d: u8) -> int;

    fn u8(source: &mut Source) -> (r: Result<u8, Error>)
        requires
            old(source).wf(),
        ensures
            final(source).wf(),
            final(source).data@ == old(source).data@,
            old(source).position + 1 <= old(source).data@.len() ==> r == Ok::<u8, Error>(
                old(source).data@[old(source).position as int],
            ) && final(source).position == old(source).position + 1,
            old(source).position + 1 > old(source).data@.len() ==> r == Err::<u8, Error>(Error::File),
    ;

    fn u16(source: &mut Source) -> (r: Result<u16, Error>)
        requires
            old(source).wf(),
        ensures
            final(source).wf(),
            final(source).data@ == old(source).data@,
            ({
                let d = old(source).data@;
                let p = old(source).position as int;
                p + 2 <= d.len() ==> r == Ok::<u16, Error>(Self::spec_u16(d[p], d[p + 1]) as u16)
                    && final(source).position == p + 2
            }),
            old(source).position + 2 > old(source).data@.len() ==> r == Err::<u16, Error>(Error::File),
    ;

    fn u32(source: &mut Source) -> (r: Result<u32, Error>)
        requires
            old(source).wf(),
        ensures
            final(source).wf(),
            final(source).data@ == old(source).data@,
            ({
                let d = old(source).data@;
                let p = old(source).position as int;
                p + 4 <= d.len() ==> r == Ok::<u32, Error>(
                    Self::spec_u32(d[p], d[p + 1], d[p + 2], d[p + 3]) as u32,
                ) && final(source).position == p + 4
            }),
            old(source).position + 4 > old(source).data@.len() ==> r == Err::<u32, Error>(Error::File),
    ;
}

/// Big-endian byte order.
pub struct Be;

/// Little-endian byte order.
pub struct Le;

impl Bytes for Be {
    open spec fn spec_u16(a: u8, b: u8) -> int {
        be16(a, b)
    }

    open spec fn spec_u32(a: u8, b: u8, c: u8, d: u8) -> int {
        be32(a, b, c, d)
    }

    fn u8(source: &mut Source) -> (r: Result<u8, Error>) {
        let s = source.take(1)?;
        Ok(s[0])
    }

    fn u16(source: &mut Source) -> (r: Result<u16, Error>) {
        let s = source.take(2)?;
        Ok(s[0] as u16 * 256 + s[1] as u16)
    }

    fn u32(source: &mut Source) -> (r: Result<u32, Error>) {
        let s = source.take(4)?;
        Ok(s[0] as u32 * 16777216 + s[1] as u32 * 65536 + s[2] as u32 * 256 + s[3] as u32)
    }
}

impl Bytes for Le {
    open spec fn spec_u16(a: u8, b: u8) -> int {
        be16(b, a)
    }

    open spec fn spec_u32(a: u8, b: u8, c: u8, d: u8) -> int {
        be32(d, c, b, a)
    }

    fn u8(source: &mut Source) -> (r: Result<u8, Error>) {
        let s = source.take(1)?;
        Ok(s[0])
    }

    fn u16(source: &mut Source) -> (r: Result<u16, Error>) {
        let s = source.take(2)?;
        Ok(s[1] as u16 * 256 + s[0] as u16)
    }

    fn u32(source: &mut Source) -> (r: Result<u32, Error>) {
        let s = source.take(4)?;
        Ok(s[3] as u32 * 16777216 + s[2] as u32 * 65536 + s[1] as u32 * 256 + s[0] as u32)
    }
}

/// `z` is the position of the first zero byte at or after `from`.
pub open spec fn is_first_zero(d: Seq<u8>, from: int, z: int) -> bool {
    from <= z < d.len() && d[z] == 0 && forall|j: int| from <= j < z ==> d[j] != 0
}

/// The position of the first zero byte at or after `from`, if any.
pub open spec fn zero_from(d: Seq<u8>, from: int) -> Option<int> {
    if exists|z: int| is_first_zero(d, from, z) {
        Some(choose|z: int| is_first_zero(d, from, z))
    } else {
        None
    }
}

/// Reads bytes up to a zero byte, which is consumed and left out.
pub fn read_until_zero(source: &mut Source) -> (r: Result<Vec<u8>, Error>)
    requires
        old(source).wf(),
    ensures
        final(source).wf(),
        final(source).data@ == old(source).data@,
        match zero_from(old(source).data@, old(source).position as int) {
            None => r == Err::<Vec<u8>, Error>(Error::File),
            Some(z) => r matches Ok(v) && v@ == old(source).data@.subrange(
                old(source).position as int,
                z,
            ) && final(source).position == z + 1,
        },
{
    let ghost d = source.data@;
    let ghost p0 = source.position as int;
    let mut name: Vec<u8> = Vec::new();
    loop
        invariant
            source.wf(),
            source.data@ == d,
            d == old(source).data@,
            p0 == old(source).position,
            p0 <= source.position,
            name@ == d.subrange(p0, source.position as int),
            forall|j: int| p0 <= j < source.position ==> d[j] != 0,
        decreases d.len() - source.position,
    {
        let ghost here = source.position as int;
        if source.at_end() {
            assert(!exists|z: int| is_first_zero(d, p0, z)) by {
                if exists|z: int| is_first_zero(d, p0, z) {
                    let z = choose|z: int| is_first_zero(d, p0, z);
                    assert(d[z] != 0);
                }
            }
            return Err(Error::File);
        }
        let c = Be::u8(source)?;
        if c == 0 {
            assert(is_first_zero(d, p0, here));
            let ghost z = choose|z: int| is_first_zero(d, p0, z);
            assert(z == here) by {
                if z < here {
                    assert(d[z] != 0);
                } else if z > here {
                    assert(d[here] != 0);
                }
            }
            return Ok(name);
        }
        name.push(c);
        assert(name@ =~= d.subrange(p0, source.position as int));
    }
}

} // verus!
