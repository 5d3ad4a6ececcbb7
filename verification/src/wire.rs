//! Fixed-width integers read from byte buffers, little- and big-endian.
//!
//! Every reader takes the buffer and the position of the first byte, and is
//! specified by `le_at` / `be_at`, the unsigned value of `n` bytes starting at
//! `pos`, and by `signed` for two's-complement reinterpretation.
use vstd::prelude::*;

verus! {

/// The unsigned little-endian value of the `n` bytes of `s` that start at `pos`.
pub open spec fn le_at(s: Seq<u8>, pos: int, n: nat) -> nat
    decreases n,
{
    if n == 0 {
        0
    } else {
        (s[pos] + 256 * le_at(s, pos + 1, (n - 1) as nat)) as nat
    }
}

/// Eight bytes read least significant first, spelled out.
pub open spec fn bytes_le8(s: Seq<u8>, p: int) -> int {
    s[p] + 0x100 * s[p + 1] + 0x1_0000 * s[p + 2] + 0x100_0000 * s[p + 3] + 0x1_0000_0000 * s[p + 4]
        + 0x100_0000_0000 * s[p + 5] + 0x1_0000_0000_0000 * s[p + 6] + 0x100_0000_0000_0000 * s[p + 7]
}

/// The little-endian value of eight bytes is the first byte, plus 256 times
/// the second, and so on up to 256 to the seventh times the eighth; it fits
/// in a `u64`.
pub proof fn lemma_le_at_8(s: Seq<u8>, p: int)
    ensures
        le_at(s, p, 8) == bytes_le8(s, p),
        le_at(s, p, 8) <= u64::MAX,
{
    reveal_with_fuel(le_at, 9);
    let b0 = s[p] as int;
    let b1 = s[p + 1] as int;
    let b2 = s[p + 2] as int;
    let b3 = s[p + 3] as int;
    let b4 = s[p + 4] as int;
    let b5 = s[p + 5] as int;
    let b6 = s[p + 6] as int;
    let b7 = s[p + 7] as int;
    assert(le_at(s, p + 7, 1) == b7);
    assert(le_at(s, p + 6, 2) == b6 + 256 * b7);
    assert(le_at(s, p + 5, 3) == b5 + 256 * b6 + 0x1_0000 * b7);
    assert(le_at(s, p + 4, 4) == b4 + 256 * b5 + 0x1_0000 * b6 + 0x100_0000 * b7);
    assert(le_at(s, p + 3, 5) == b3 + 256 * b4 + 0x1_0000 * b5 + 0x100_0000 * b6 + 0x1_0000_0000 * b7);
    assert(le_at(s, p + 2, 6) == b2 + 256 * b3 + 0x1_0000 * b4 + 0x100_0000 * b5 + 0x1_0000_0000 * b6
        + 0x100_0000_0000 * b7);
    assert(le_at(s, p + 1, 7) == b1 + 256 * b2 + 0x1_0000 * b3 + 0x100_0000 * b4 + 0x1_0000_0000 * b5
        + 0x100_0000_0000 * b6 + 0x1_0000_0000_0000 * b7);
}

/// Four bytes read least significant first, spelled out.
pub open spec fn bytes_le4(s: Seq<u8>, p: int) -> int {
    s[p] + 0x100 * s[p + 1] + 0x1_0000 * s[p + 2] + 0x100_0000 * s[p + 3]
}

/// The little-endian value of four bytes, spelled out; it fits in a `u32`.
pub proof fn lemma_le_at_4(s: Seq<u8>, p: int)
    ensures
        le_at(s, p, 4) == bytes_le4(s, p),
        le_at(s, p, 4) <= u32::MAX,
{
    reveal_with_fuel(le_at, 5);
    let b1 = s[p + 1] as int;
    let b2 = s[p + 2] as int;
    let b3 = s[p + 3] as int;
    assert(le_at(s, p + 3, 1) == b3);
    assert(le_at(s, p + 2, 2) == b2 + 256 * b3);
    assert(le_at(s, p + 1, 3) == b1 + 256 * b2 + 0x1_0000 * b3);
}

/// The unsigned big-endian value of the `n` bytes of `s` that start at `pos`.
pub open spec fn be_at(s: Seq<u8>, pos: int, n: nat) -> nat
    decreases n,
{
    if n == 0 {
        0
    } else {
        (be_at(s, pos, (n - 1) as nat) * 256 + s[pos + n - 1]) as nat
    }
}

/// Two's-complement reading of an unsigned value `u` of `bits` bits.
pub open spec fn signed(u: int, half: int) -> int {
    if u < half {
        u
    } else {
        u - 2 * half
    }
}

pub open spec fn i64_le_at(s: Seq<u8>, pos: int) -> int {
    signed(le_at(s, pos, 8) as int, 0x8000_0000_0000_0000)
}

pub open spec fn i32_le_at(s: Seq<u8>, pos: int) -> int {
    signed(le_at(s, pos, 4) as int, 0x8000_0000)
}

pub open spec fn i16_le_at(s: Seq<u8>, pos: int) -> int {
    signed(le_at(s, pos, 2) as int, 0x8000)
}

pub open spec fn i8_at(s: Seq<u8>, pos: int) -> int {
    signed(s[pos] as int, 0x80)
}

pub fn read_u16_le(b: &[u8], pos: usize) -> (r: u16)
    requires
        pos + 2 <= b@.len(),
    ensures
        r == le_at(b@, pos as int, 2),
{
    proof {
        reveal_with_fuel(le_at, 3);
    }
    let b0 = b[pos] as u16;
    let b1 = b[pos + 1] as u16;
    b0 + 256 * b1
}

pub fn read_u32_le(b: &[u8], pos: usize) -> (r: u32)
    requires
        pos + 4 <= b@.len(),
    ensures
        r == le_at(b@, pos as int, 4),
{
    proof {
        reveal_with_fuel(le_at, 5);
    }
    let b0 = b[pos] as u32;
    let b1 = b[pos + 1] as u32;
    let b2 = b[pos + 2] as u32;
    let b3 = b[pos + 3] as u32;
    b0 + 256 * (b1 + 256 * (b2 + 256 * b3))
}

pub fn read_u64_le(b: &[u8], pos: usize) -> (r: u64)
    requires
        pos + 8 <= b@.len(),
    ensures
        r == le_at(b@, pos as int, 8),
{
    proof {
        reveal_with_fuel(le_at, 9);
    }
    let b0 = b[pos] as u64;
    let b1 = b[pos + 1] as u64;
    let b2 = b[pos + 2] as u64;
    let b3 = b[pos + 3] as u64;
    let b4 = b[pos + 4] as u64;
    let b5 = b[pos + 5] as u64;
    let b6 = b[pos + 6] as u64;
    let b7 = b[pos + 7] as u64;
    b0 + 256 * (b1 + 256 * (b2 + 256 * (b3 + 256 * (b4 + 256 * (b5 + 256 * (b6 + 256 * b7))))))
}

pub fn read_u16_be(b: &[u8], pos: usize) -> (r: u16)
    requires
        pos + 2 <= b@.len(),
    ensures
        r == be_at(b@, pos as int, 2),
{
    proof {
        reveal_with_fuel(be_at, 3);
    }
    let b0 = b[pos] as u16;
    let b1 = b[pos + 1] as u16;
    b0 * 256 + b1
}

pub fn read_u32_be(b: &[u8], pos: usize) -> (r: u32)
    requires
        pos + 4 <= b@.len(),
    ensures
        r == be_at(b@, pos as int, 4),
{
    proof {
        reveal_with_fuel(be_at, 5);
    }
    let b0 = b[pos] as u32;
    let b1 = b[pos + 1] as u32;
    let b2 = b[pos + 2] as u32;
    let b3 = b[pos + 3] as u32;
    ((b0 * 256 + b1) * 256 + b2) * 256 + b3
}

pub fn read_u64_be(b: &[u8], pos: usize) -> (r: u64)
    requires
        pos + 8 <= b@.len(),
    ensures
        r == be_at(b@, pos as int, 8),
{
    proof {
        reveal_with_fuel(be_at, 9);
    }
    let b0 = b[pos] as u64;
    let b1 = b[pos + 1] as u64;
    let b2 = b[pos + 2] as u64;
    let b3 = b[pos + 3] as u64;
    let b4 = b[pos + 4] as u64;
    let b5 = b[pos + 5] as u64;
    let b6 = b[pos + 6] as u64;
    let b7 = b[pos + 7] as u64;
    ((((((b0 * 256 + b1) * 256 + b2) * 256 + b3) * 256 + b4) * 256 + b5) * 256 + b6) * 256 + b7
}

pub fn read_i64_le(b: &[u8], pos: usize) -> (r: i64)
    requires
        pos + 8 <= b@.len(),
    ensures
        r == i64_le_at(b@, pos as int),
{
    let u = read_u64_le(b, pos);
    if u <= 0x7fff_ffff_ffff_ffffu64 {
        u as i64
    } else {
        let d = 0xffff_ffff_ffff_ffffu64 - u;
        -(d as i64) - 1
    }
}

pub fn read_i32_le(b: &[u8], pos: usize) -> (r: i32)
    requires
        pos + 4 <= b@.len(),
    ensures
        r == i32_le_at(b@, pos as int),
{
    let u = read_u32_le(b, pos);
    if u <= 0x7fff_ffffu32 {
        u as i32
    } else {
        let d = 0xffff_ffffu32 - u;
        -(d as i32) - 1
    }
}

pub fn read_i16_le(b: &[u8], pos: usize) -> (r: i16)
    requires
        pos + 2 <= b@.len(),
    ensures
        r == i16_le_at(b@, pos as int),
{
    let u = read_u16_le(b, pos);
    if u <= 0x7fffu16 {
        u as i16
    } else {
        let d = 0xffffu16 - u;
        -(d as i16) - 1
    }
}

pub fn read_i8(b: &[u8], pos: usize) -> (r: i8)
    requires
        pos + 1 <= b@.len(),
    ensures
        r == i8_at(b@, pos as int),
{
    let u = b[pos];
    if u <= 0x7fu8 {
        u as i8
    } else {
        let d = 0xffu8 - u;
        -(d as i8) - 1
    }
}

/// Whether `s` begins with the bytes of `prefix`.
pub open spec fn starts_with(s: Seq<u8>, prefix: Seq<u8>) -> bool {
    prefix.len() <= s.len() && s.subrange(0, prefix.len() as int) == prefix
}

pub fn bytes_start_with(s: &[u8], prefix: &[u8]) -> (r: bool)
    ensures
        r == starts_with(s@, prefix@),
{
    if prefix.len() > s.len() {
        return false;
    }
    let mut i: usize = 0;
    while i < prefix.len()
        invariant
            i <= prefix@.len() <= s@.len(),
            forall|j: int| 0 <= j < i ==> s@[j] == prefix@[j],
        decreases prefix@.len() - i,
    {
        if s[i] != prefix[i] {
            assert(s@.subrange(0, prefix@.len() as int)[i as int] != prefix@[i as int]);
            return false;
        }
        i = i + 1;
    }
    assert(s@.subrange(0, prefix@.len() as int) =~= prefix@);
    true
}

/// A copy of `s[start..end]`.
pub fn copy_range(s: &[u8], start: usize, end: usize) -> (r: Vec<u8>)
    requires
        start <= end <= s@.len(),
    ensures
        r@ == s@.subrange(start as int, end as int),
{
    let mut out: Vec<u8> = Vec::new();
    let mut i = start;
    while i < end
        invariant
            start <= i <= end <= s@.len(),
            out@ == s@.subrange(start as int, i as int),
        decreases end - i,
    {
        out.push(s[i]);
        i = i + 1;
        assert(out@ =~= s@.subrange(start as int, i as int));
    }
    out
}

} // verus!
