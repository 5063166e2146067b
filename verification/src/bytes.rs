//! Little-endian integer encoding of the index file.

use vstd::prelude::*;

verus! {

pub open spec fn le_u16(s: Seq<u8>, off: int) -> int {
    s[off] as int + s[off + 1] as int * 256
}

pub open spec fn le_u32(s: Seq<u8>, off: int) -> int {
    s[off] as int + s[off + 1] as int * 256 + s[off + 2] as int * 65536 + s[off + 3] as int
        * 16777216
}

/// Two's-complement reading of the 16-bit little-endian word at `off`.
pub open spec fn le_i16(s: Seq<u8>, off: int) -> int {
    let u = le_u16(s, off);
    if u >= 32768 {
        u - 65536
    } else {
        u
    }
}

/// Two's-complement reading of the 32-bit little-endian word at `off`.
pub open spec fn le_i32(s: Seq<u8>, off: int) -> int {
    let u = le_u32(s, off);
    if u >= 0x8000_0000 {
        u - 0x1_0000_0000
    } else {
        u
    }
}

/// The four little-endian bytes of `x` (`0 <= x < 2^32`).
pub open spec fn u32_bytes(x: int) -> Seq<u8> {
    seq![(x % 256) as u8, ((x / 256) % 256) as u8, ((x / 65536) % 256) as u8, ((x / 16777216) % 256) as u8]
}

/// The two little-endian bytes of `x` (`0 <= x < 2^16`).
pub open spec fn u16_bytes(x: int) -> Seq<u8> {
    seq![(x % 256) as u8, ((x / 256) % 256) as u8]
}

/// Two's-complement encoding of a 32-bit signed value.
pub open spec fn i32_bytes(x: int) -> Seq<u8> {
    if x < 0 {
        u32_bytes(x + 0x1_0000_0000)
    } else {
        u32_bytes(x)
    }
}

/// Two's-complement encoding of a 16-bit signed value.
pub open spec fn i16_bytes(x: int) -> Seq<u8> {
    if x < 0 {
        u16_bytes(x + 65536)
    } else {
        u16_bytes(x)
    }
}

pub fn read_u16_le(s: &[u8], off: usize) -> (r: u16)
    requires
        off + 2 <= s@.len(),
    ensures
        r == le_u16(s@, off as int),
{
    s[off] as u16 + s[off + 1] as u16 * 256
}

pub fn read_u32_le(s: &[u8], off: usize) -> (r: u32)
    requires
        off + 4 <= s@.len(),
    ensures
        r == le_u32(s@, off as int),
{
    s[off] as u32 + s[off + 1] as u32 * 256 + s[off + 2] as u32 * 65536 + s[off + 3] as u32
        * 16777216
}

pub fn read_i32_le(s: &[u8], off: usize) -> (r: i32)
    requires
        off + 4 <= s@.len(),
    ensures
        r == le_i32(s@, off as int),
{
    let u = read_u32_le(s, off);
    if u >= 0x8000_0000 {
        ((u - 0x8000_0000) as i32) - 0x7fff_ffff - 1
    } else {
        u as i32
    }
}

pub fn read_i16_le(s: &[u8], off: usize) -> (r: i16)
    requires
        off + 2 <= s@.len(),
    ensures
        r == le_i16(s@, off as int),
{
    let u = read_u16_le(s, off);
    if u >= 0x8000 {
        ((u - 0x8000) as i16) - 0x7fff - 1
    } else {
        u as i16
    }
}

/// Decoding the encoding of a 32-bit value gives it back.
pub proof fn lemma_u32_roundtrip(x: int)
    requires
        0 <= x < 0x1_0000_0000,
    ensures
        le_u32(u32_bytes(x), 0) == x,
{
    let b = u32_bytes(x);
    assert(b[0] as int == x % 256);
    assert(b[1] as int == (x / 256) % 256);
    assert(b[2] as int == (x / 65536) % 256);
    assert(b[3] as int == (x / 16777216) % 256);
}

pub proof fn lemma_u16_roundtrip(x: int)
    requires
        0 <= x < 65536,
    ensures
        le_u16(u16_bytes(x), 0) == x,
{
    let b = u16_bytes(x);
    assert(b[0] as int == x % 256);
    assert(b[1] as int == (x / 256) % 256);
}

pub proof fn lemma_i32_roundtrip(x: int)
    requires
        -0x8000_0000 <= x < 0x8000_0000,
    ensures
        le_i32(i32_bytes(x), 0) == x,
{
    if x < 0 {
        lemma_u32_roundtrip(x + 0x1_0000_0000);
    } else {
        lemma_u32_roundtrip(x);
    }
}

pub proof fn lemma_i16_roundtrip(x: int)
    requires
        -32768 <= x < 32768,
    ensures
        le_i16(i16_bytes(x), 0) == x,
{
    if x < 0 {
        lemma_u16_roundtrip(x + 65536);
    } else {
        lemma_u16_roundtrip(x);
    }
}

/// `b` starts with the bytes of `a`.
pub open spec fn extends(a: Seq<u8>, b: Seq<u8>) -> bool {
    &&& a.len() <= b.len()
    &&& forall|i: int| 0 <= i < a.len() ==> #[trigger] b[i] == a[i]
}

pub proof fn lemma_extends_trans(a: Seq<u8>, b: Seq<u8>, c: Seq<u8>)
    requires
        extends(a, b),
        extends(b, c),
    ensures
        extends(a, c),
{
    assert forall|i: int| 0 <= i < a.len() implies #[trigger] c[i] == a[i] by {
        assert(c[i] == b[i]);
    }
}

/// Words inside the common prefix read the same in both sequences.
pub proof fn lemma_extends_read(a: Seq<u8>, b: Seq<u8>, off: int)
    requires
        extends(a, b),
        0 <= off,
    ensures
        off + 2 <= a.len() ==> le_i16(b, off) == le_i16(a, off),
        off + 4 <= a.len() ==> le_i32(b, off) == le_i32(a, off),
        off + 4 <= a.len() ==> le_u32(b, off) == le_u32(a, off),
        off + 1 <= a.len() ==> b[off] == a[off],
{
    if off + 1 <= a.len() {
        assert(b[off] == a[off]);
    }
    if off + 2 <= a.len() {
        assert(b[off + 1] == a[off + 1]);
    }
    if off + 4 <= a.len() {
        assert(b[off + 2] == a[off + 2]);
        assert(b[off + 3] == a[off + 3]);
    }
}

/// Append the little-endian encoding of `x`.
pub fn push_u32_le(out: &mut Vec<u8>, x: u32)
    ensures
        final(out)@ == old(out)@ + u32_bytes(x as int),
        extends(old(out)@, final(out)@),
        le_u32(final(out)@, old(out)@.len() as int) == x,
{
    out.push((x % 256) as u8);
    out.push(((x / 256) % 256) as u8);
    out.push(((x / 65536) % 256) as u8);
    out.push(((x / 16777216) % 256) as u8);
    assert(final(out)@ =~= old(out)@ + u32_bytes(x as int));
    proof {
        let n = old(out)@.len() as int;
        let b = u32_bytes(x as int);
        lemma_u32_roundtrip(x as int);
        assert(final(out)@[n] == b[0]);
        assert(final(out)@[n + 1] == b[1]);
        assert(final(out)@[n + 2] == b[2]);
        assert(final(out)@[n + 3] == b[3]);
    }
}

pub fn push_i32_le(out: &mut Vec<u8>, x: i32)
    ensures
        final(out)@ == old(out)@ + i32_bytes(x as int),
        extends(old(out)@, final(out)@),
        le_i32(final(out)@, old(out)@.len() as int) == x,
{
    let u: u32 = if x < 0 {
        ((x as i64) + 0x1_0000_0000i64) as u32
    } else {
        x as u32
    };
    push_u32_le(out, u);
    proof {
        let n = old(out)@.len() as int;
        let b = i32_bytes(x as int);
        lemma_i32_roundtrip(x as int);
        assert(final(out)@[n] == b[0]);
        assert(final(out)@[n + 1] == b[1]);
        assert(final(out)@[n + 2] == b[2]);
        assert(final(out)@[n + 3] == b[3]);
    }
}

pub fn push_i16_le(out: &mut Vec<u8>, x: i16)
    ensures
        final(out)@ == old(out)@ + i16_bytes(x as int),
        extends(old(out)@, final(out)@),
        le_i16(final(out)@, old(out)@.len() as int) == x,
{
    let u: u32 = if x < 0 {
        ((x as i32) + 65536i32) as u32
    } else {
        x as u32
    };
    out.push((u % 256) as u8);
    out.push(((u / 256) % 256) as u8);
    assert(final(out)@ =~= old(out)@ + i16_bytes(x as int));
    proof {
        let n = old(out)@.len() as int;
        let b = i16_bytes(x as int);
        lemma_i16_roundtrip(x as int);
        assert(final(out)@[n] == b[0]);
        assert(final(out)@[n + 1] == b[1]);
    }
}

} // verus!
