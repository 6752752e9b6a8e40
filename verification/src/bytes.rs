//! Little-endian integers and byte-slice helpers.
use vstd::prelude::*;

verus! {

/// The number that four little-endian bytes spell.
pub open spec fn le32(s: Seq<u8>) -> int {
    s[0] + s[1] * 0x100 + s[2] * 0x1_0000 + s[3] * 0x100_0000
}

/// The number that eight little-endian bytes spell.
pub open spec fn le64(s: Seq<u8>) -> int {
    le32(s.subrange(0, 4)) + le32(s.subrange(4, 8)) * 0x1_0000_0000
}

/// The four little-endian bytes of `x`.
pub open spec fn le32_bytes(x: u32) -> Seq<u8> {
    seq![
        (x % 0x100) as u8,
        (x / 0x100 % 0x100) as u8,
        (x / 0x1_0000 % 0x100) as u8,
        (x / 0x100_0000) as u8,
    ]
}

/// The eight little-endian bytes of `x`.
pub open spec fn le64_bytes(x: u64) -> Seq<u8> {
    le32_bytes((x % 0x1_0000_0000) as u32) + le32_bytes((x / 0x1_0000_0000) as u32)
}

/// Writing then reading four bytes gives the number back, and the bytes of
/// a number that was read are the bytes it was read from.
pub proof fn lemma_le32(x: u32, s: Seq<u8>)
    requires
        s.len() == 4,
    ensures
        le32_bytes(x).len() == 4,
        le32(le32_bytes(x)) == x,
        0 <= le32(s) <= u32::MAX,
        le32_bytes(le32(s) as u32) == s,
{
    assert(x == x % 0x100 + (x / 0x100 % 0x100) * 0x100 + (x / 0x1_0000 % 0x100) * 0x1_0000 + (x
        / 0x100_0000) * 0x100_0000 && x / 0x100_0000 < 0x100) by (bit_vector);
    let (b0, b1, b2, b3) = (s[0], s[1], s[2], s[3]);
    let y = le32(s) as u32;
    assert(y % 0x100 == b0 && y / 0x100 % 0x100 == b1 && y / 0x1_0000 % 0x100 == b2 && y
        / 0x100_0000 == b3) by (bit_vector)
        requires
            y == b0 + b1 * 0x100 + b2 * 0x1_0000 + b3 * 0x100_0000,
    ;
    assert(le32_bytes(y) =~= s);
}

/// Writing then reading eight bytes gives the number back, and the bytes of
/// a number that was read are the bytes it was read from.
pub proof fn lemma_le64(x: u64, s: Seq<u8>)
    requires
        s.len() == 8,
    ensures
        le64_bytes(x).len() == 8,
        le64(le64_bytes(x)) == x,
        0 <= le64(s) <= u64::MAX,
        le64_bytes(le64(s) as u64) == s,
{
    let low = (x % 0x1_0000_0000) as u32;
    let high = (x / 0x1_0000_0000) as u32;
    lemma_le32(low, s.subrange(0, 4));
    lemma_le32(high, s.subrange(4, 8));
    assert(le64_bytes(x).subrange(0, 4) =~= le32_bytes(low));
    assert(le64_bytes(x).subrange(4, 8) =~= le32_bytes(high));
    let l = le32(s.subrange(0, 4)) as u32;
    let h = le32(s.subrange(4, 8)) as u32;
    let y = le64(s) as u64;
    assert(y % 0x1_0000_0000 == l && y / 0x1_0000_0000 == h) by (bit_vector)
        requires
            y == l + h * 0x1_0000_0000,
    ;
    assert(le64_bytes(y) =~= s.subrange(0, 4) + s.subrange(4, 8));
    assert(le64_bytes(y) =~= s);
}

/// Reads four little-endian bytes starting at `at`.
pub fn read_le32(buf: &[u8], at: usize) -> (x: u32)
    requires
        at + 4 <= buf.len(),
    ensures
        x == le32(buf@.subrange(at as int, at + 4)),
{
    buf[at] as u32 + buf[at + 1] as u32 * 0x100 + buf[at + 2] as u32 * 0x1_0000 + buf[at + 3] as u32
        * 0x100_0000
}

/// Reads eight little-endian bytes starting at `at`.
pub fn read_le64(buf: &[u8], at: usize) -> (x: u64)
    requires
        at + 8 <= buf.len(),
    ensures
        x == le64(buf@.subrange(at as int, at + 8)),
{
    let low: u32 = read_le32(buf, at);
    let high: u32 = read_le32(buf, at + 4);
    proof {
        let s = buf@.subrange(at as int, at + 8);
        assert(s.subrange(0, 4) =~= buf@.subrange(at as int, at + 4));
        assert(s.subrange(4, 8) =~= buf@.subrange(at + 4, at + 8));
    }
    low as u64 + high as u64 * 0x1_0000_0000
}

/// Appends the four little-endian bytes of `x`.
pub fn put_le32(out: &mut Vec<u8>, x: u32)
    ensures
        final(out)@ == old(out)@ + le32_bytes(x),
{
    out.push((x % 0x100) as u8);
    out.push((x / 0x100 % 0x100) as u8);
    out.push((x / 0x1_0000 % 0x100) as u8);
    out.push((x / 0x100_0000) as u8);
    assert(out@ =~= old(out)@ + le32_bytes(x));
}

/// Appends the eight little-endian bytes of `x`.
pub fn put_le64(out: &mut Vec<u8>, x: u64)
    ensures
        final(out)@ == old(out)@ + le64_bytes(x),
{
    put_le32(out, (x % 0x1_0000_0000) as u32);
    put_le32(out, (x / 0x1_0000_0000) as u32);
    assert(out@ =~= old(out)@ + le64_bytes(x));
}

/// Appends a copy of `bytes`.
pub fn put_bytes(out: &mut Vec<u8>, bytes: &[u8])
    ensures
        final(out)@ == old(out)@ + bytes@,
{
    let mut i: usize = 0;
    while i < bytes.len()
        invariant
            i <= bytes@.len(),
            out@ == old(out)@ + bytes@.subrange(0, i as int),
        decreases bytes@.len() - i,
    {
        out.push(bytes[i]);
        i += 1;
        assert(out@ =~= old(out)@ + bytes@.subrange(0, i as int));
    }
    assert(bytes@.subrange(0, bytes@.len() as int) =~= bytes@);
}

/// A copy of `bytes` as an owned vector.
pub fn copy_bytes(bytes: &[u8]) -> (out: Vec<u8>)
    ensures
        out@ == bytes@,
{
    let mut out: Vec<u8> = Vec::new();
    put_bytes(&mut out, bytes);
    assert(out@ =~= bytes@);
    out
}

/// Whether two byte strings are equal.
pub fn bytes_equal(a: &[u8], b: &[u8]) -> (equal: bool)
    ensures
        equal == (a@ == b@),
{
    if a.len() != b.len() {
        return false;
    }
    let mut i: usize = 0;
    while i < a.len()
        invariant
            i <= a@.len(),
            a@.len() == b@.len(),
            forall|k: int| 0 <= k < i ==> a@[k] == b@[k],
        decreases a@.len() - i,
    {
        if a[i] != b[i] {
            return false;
        }
        i += 1;
    }
    assert(a@ =~= b@);
    true
}

} // verus!
