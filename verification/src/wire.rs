//! Little-endian integer layout and byte-sequence comparison.
//!
//! Record headers store three `u32` fields and the index snapshot stores
//! `u64` fields, all in little-endian order. The spec functions here give
//! those layouts a mathematical meaning, and the executable functions are
//! proved to match them.

use vstd::prelude::*;

verus! {

/// The four bytes of `x`, least significant first.
pub open spec fn le32_bytes(x: u32) -> Seq<u8> {
    seq![
        (x & 0xff) as u8,
        ((x >> 8) & 0xff) as u8,
        ((x >> 16) & 0xff) as u8,
        ((x >> 24) & 0xff) as u8,
    ]
}

/// The `u32` denoted by four bytes, least significant first.
pub open spec fn le32_value(b0: u8, b1: u8, b2: u8, b3: u8) -> u32 {
    (b0 as u32) | ((b1 as u32) << 8) | ((b2 as u32) << 16) | ((b3 as u32) << 24)
}

/// The `u32` stored little-endian at position `pos` of `s`.
pub open spec fn le32_at(s: Seq<u8>, pos: int) -> u32 {
    le32_value(s[pos], s[pos + 1], s[pos + 2], s[pos + 3])
}

/// The eight bytes of `x`, least significant first.
pub open spec fn le64_bytes(x: u64) -> Seq<u8> {
    seq![
        (x & 0xff) as u8,
        ((x >> 8) & 0xff) as u8,
        ((x >> 16) & 0xff) as u8,
        ((x >> 24) & 0xff) as u8,
        ((x >> 32) & 0xff) as u8,
        ((x >> 40) & 0xff) as u8,
        ((x >> 48) & 0xff) as u8,
        ((x >> 56) & 0xff) as u8,
    ]
}

/// The `u64` denoted by eight bytes, least significant first.
pub open spec fn le64_value(
    b0: u8, b1: u8, b2: u8, b3: u8, b4: u8, b5: u8, b6: u8, b7: u8,
) -> u64 {
    (b0 as u64) | ((b1 as u64) << 8) | ((b2 as u64) << 16) | ((b3 as u64) << 24)
        | ((b4 as u64) << 32) | ((b5 as u64) << 40) | ((b6 as u64) << 48)
        | ((b7 as u64) << 56)
}

/// The `u64` stored little-endian at position `pos` of `s`.
pub open spec fn le64_at(s: Seq<u8>, pos: int) -> u64 {
    le64_value(
        s[pos], s[pos + 1], s[pos + 2], s[pos + 3],
        s[pos + 4], s[pos + 5], s[pos + 6], s[pos + 7],
    )
}

/// Reading back the four little-endian bytes of `x` recovers `x`.
pub proof fn lemma_le32_round_trip(x: u32)
    ensures
        le32_value(
            le32_bytes(x)[0], le32_bytes(x)[1], le32_bytes(x)[2], le32_bytes(x)[3],
        ) == x,
{
    assert(((x & 0xff) as u8 as u32) | ((((x >> 8) & 0xff) as u8 as u32) << 8)
        | ((((x >> 16) & 0xff) as u8 as u32) << 16)
        | ((((x >> 24) & 0xff) as u8 as u32) << 24) == x) by (bit_vector);
}

/// Reading back the eight little-endian bytes of `x` recovers `x`.
pub proof fn lemma_le64_round_trip(x: u64)
    ensures
        le64_value(
            le64_bytes(x)[0], le64_bytes(x)[1], le64_bytes(x)[2], le64_bytes(x)[3],
            le64_bytes(x)[4], le64_bytes(x)[5], le64_bytes(x)[6], le64_bytes(x)[7],
        ) == x,
{
    assert(((x & 0xff) as u8 as u64) | ((((x >> 8) & 0xff) as u8 as u64) << 8)
        | ((((x >> 16) & 0xff) as u8 as u64) << 16)
        | ((((x >> 24) & 0xff) as u8 as u64) << 24)
        | ((((x >> 32) & 0xff) as u8 as u64) << 32)
        | ((((x >> 40) & 0xff) as u8 as u64) << 40)
        | ((((x >> 48) & 0xff) as u8 as u64) << 48)
        | ((((x >> 56) & 0xff) as u8 as u64) << 56) == x) by (bit_vector);
}

/// A segment that holds the little-endian bytes of `x` reads back as `x`.
pub proof fn lemma_le64_at_of_bytes(s: Seq<u8>, pos: int, x: u64)
    requires
        0 <= pos,
        pos + 8 <= s.len(),
        s.subrange(pos, pos + 8) == le64_bytes(x),
    ensures
        le64_at(s, pos) == x,
{
    lemma_le64_round_trip(x);
    let seg = s.subrange(pos, pos + 8);
    assert(s[pos] == seg[0]);
    assert(s[pos + 1] == seg[1]);
    assert(s[pos + 2] == seg[2]);
    assert(s[pos + 3] == seg[3]);
    assert(s[pos + 4] == seg[4]);
    assert(s[pos + 5] == seg[5]);
    assert(s[pos + 6] == seg[6]);
    assert(s[pos + 7] == seg[7]);
}

/// Appends the four little-endian bytes of `x` to `out`.
pub fn write_u32_le(out: &mut Vec<u8>, x: u32)
    ensures
        final(out)@ == old(out)@ + le32_bytes(x),
{
    proof {
        assert((x & 0xff) < 256 && ((x >> 8) & 0xff) < 256 && ((x >> 16) & 0xff) < 256
            && ((x >> 24) & 0xff) < 256) by (bit_vector);
    }
    out.push((x & 0xff) as u8);
    out.push(((x >> 8) & 0xff) as u8);
    out.push(((x >> 16) & 0xff) as u8);
    out.push(((x >> 24) & 0xff) as u8);
    proof {
        assert(out@ =~= old(out)@ + le32_bytes(x));
    }
}

/// Appends the eight little-endian bytes of `x` to `out`.
pub fn write_u64_le(out: &mut Vec<u8>, x: u64)
    ensures
        final(out)@ == old(out)@ + le64_bytes(x),
{
    proof {
        assert((x & 0xff) < 256 && ((x >> 8) & 0xff) < 256 && ((x >> 16) & 0xff) < 256
            && ((x >> 24) & 0xff) < 256 && ((x >> 32) & 0xff) < 256
            && ((x >> 40) & 0xff) < 256 && ((x >> 48) & 0xff) < 256
            && ((x >> 56) & 0xff) < 256) by (bit_vector);
    }
    out.push((x & 0xff) as u8);
    out.push(((x >> 8) & 0xff) as u8);
    out.push(((x >> 16) & 0xff) as u8);
    out.push(((x >> 24) & 0xff) as u8);
    out.push(((x >> 32) & 0xff) as u8);
    out.push(((x >> 40) & 0xff) as u8);
    out.push(((x >> 48) & 0xff) as u8);
    out.push(((x >> 56) & 0xff) as u8);
    proof {
        assert(out@ =~= old(out)@ + le64_bytes(x));
    }
}

/// Reads the little-endian `u32` stored at position `pos` of `s`.
pub fn read_u32_le(s: &[u8], pos: usize) -> (r: u32)
    requires
        pos + 4 <= s@.len(),
    ensures
        r == le32_at(s@, pos as int),
{
    let n: usize = s.len();
    assert(pos + 4 <= n);
    let b0 = s[pos];
    let b1 = s[pos + 1];
    let b2 = s[pos + 2];
    let b3 = s[pos + 3];
    (b0 as u32) | ((b1 as u32) << 8) | ((b2 as u32) << 16) | ((b3 as u32) << 24)
}

/// Reads the little-endian `u64` stored at position `pos` of `s`.
pub fn read_u64_le(s: &[u8], pos: usize) -> (r: u64)
    requires
        pos + 8 <= s@.len(),
    ensures
        r == le64_at(s@, pos as int),
{
    let n: usize = s.len();
    assert(pos + 8 <= n);
    let b0 = s[pos];
    let b1 = s[pos + 1];
    let b2 = s[pos + 2];
    let b3 = s[pos + 3];
    let b4 = s[pos + 4];
    let b5 = s[pos + 5];
    let b6 = s[pos + 6];
    let b7 = s[pos + 7];
    (b0 as u64) | ((b1 as u64) << 8) | ((b2 as u64) << 16) | ((b3 as u64) << 24)
        | ((b4 as u64) << 32) | ((b5 as u64) << 40) | ((b6 as u64) << 48)
        | ((b7 as u64) << 56)
}

/// Compares two byte slices for equality of their contents.
pub fn bytes_eq(a: &[u8], b: &[u8]) -> (r: bool)
    ensures
        r == (a@ == b@),
{
    if a.len() != b.len() {
        return false;
    }
    let mut i: usize = 0;
    while i < a.len()
        invariant
            i <= a@.len(),
            a@.len() == b@.len(),
            forall|j: int| 0 <= j < i ==> a@[j] == b@[j],
        decreases a@.len() - i,
    {
        if a[i] != b[i] {
            return false;
        }
        i = i + 1;
    }
    proof {
        assert(a@ =~= b@);
    }
    true
}

} // verus!
