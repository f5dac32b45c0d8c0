use vstd::prelude::*;

verus! {

/// The unsigned number that two bytes spell, most significant first.
pub open spec fn be16(a: u8, b: u8) -> int {
    a * 256 + b
}

/// The unsigned number that four bytes spell, most significant first.
pub open spec fn be32(a: u8, b: u8, c: u8, d: u8) -> int {
    a * 16777216 + b * 65536 + c * 256 + d
}

/// The two's-complement reading of a 32-bit pattern.
pub open spec fn signed32(v: int) -> int {
    if v < 0x8000_0000 { v } else { v - 0x1_0000_0000 }
}

/// Fixed-size integers read from the start of a byte slice, in one byte order.
pub trait Bytes {
    spec fn spec_u16(s: Seq<u8>) -> int;

    spec fn spec_u32(s: Seq<u8>) -> int;

    fn i32(source: &[u8]) -> (r: i32)
        requires
            source@.len() >= 4,
        ensures
            r == signed32(Self::spec_u32(source@)),
    ;

    fn u8(source: &[u8]) -> (r: u8)
        requires
            source@.len() >= 1,
        ensures
            r == source@[0],
    ;

    fn u16(source: &[u8]) -> (r: u16)
        requires
            source@.len() >= 2,
        ensures
            r == Self::spec_u16(source@),
    ;

    fn u32(source: &[u8]) -> (r: u32)
        requires
            source@.len() >= 4,
        ensures
            r == Self::spec_u32(source@),
    ;
}

/// Big-endian byte order: the most significant byte comes first.
pub struct Be;

/// Little-endian byte order: the least significant byte comes first.
pub struct Le;

/// Reads a 16-bit number at `i`, in big-endian order when `big` holds.
pub fn read_u16(source: &[u8], i: usize, big: bool) -> (r: u16)
    requires
        i + 2 <= source@.len(),
    ensures
        r == (if big {
            be16(source@[i as int], source@[i + 1])
        } else {
            be16(source@[i + 1], source@[i as int])
        }),
{
    let x = source[i];
    let y = source[i + 1];
    if big {
        x as u16 * 256 + y as u16
    } else {
        y as u16 * 256 + x as u16
    }
}

/// Reads a 32-bit number at `i`, in big-endian order when `big` holds.
pub fn read_u32(source: &[u8], i: usize, big: bool) -> (r: u32)
    requires
        i + 4 <= source@.len(),
    ensures
        r == (if big {
            be32(source@[i as int], source@[i + 1], source@[i + 2], source@[i + 3])
        } else {
            be32(source@[i + 3], source@[i + 2], source@[i + 1], source@[i as int])
        }),
{
    let w = source[i];
    let x = source[i + 1];
    let y = source[i + 2];
    let z = source[i + 3];
    if big {
        w as u32 * 16777216 + x as u32 * 65536 + y as u32 * 256 + z as u32
    } else {
        z as u32 * 16777216 + y as u32 * 65536 + x as u32 * 256 + w as u32
    }
}

/// Reinterprets a 32-bit pattern as a two's-complement number.
pub fn to_signed(v: u32) -> (r: i32)
    ensures
        r == signed32(v as int),
{
    if v < 0x8000_0000 {
        v as i32
    } else {
        let low = (v - 0x8000_0000) as i32;
        low - 0x7fff_ffff - 1
    }
}

impl Bytes for Be {
    open spec fn spec_u16(s: Seq<u8>) -> int {
        be16(s[0], s[1])
    }

    open spec fn spec_u32(s: Seq<u8>) -> int {
        be32(s[0], s[1], s[2], s[3])
    }

    fn i32(source: &[u8]) -> (r: i32) {
        to_signed(read_u32(source, 0, true))
    }

    fn u8(source: &[u8]) -> (r: u8) {
        source[0]
    }

    fn u16(source: &[u8]) -> (r: u16) {
        read_u16(source, 0, true)
    }

    fn u32(source: &[u8]) -> (r: u32) {
        read_u32(source, 0, true)
    }
}

impl Bytes for Le {
    open spec fn spec_u16(s: Seq<u8>) -> int {
        be16(s[1], s[0])
    }

    open spec fn spec_u32(s: Seq<u8>) -> int {
        be32(s[3], s[2], s[1], s[0])
    }

    fn i32(source: &[u8]) -> (r: i32) {
        to_signed(read_u32(source, 0, false))
    }

    fn u8(source: &[u8]) -> (r: u8) {
        source[0]
    }

    fn u16(source: &[u8]) -> (r: u16) {
        read_u16(source, 0, false)
    }

    fn u32(source: &[u8]) -> (r: u32) {
        read_u32(source, 0, false)
    }
}

} // verus!
