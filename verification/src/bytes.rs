//! Little- and big-endian integer fields and zero-terminated spans of raw buffers.
use vstd::prelude::*;

verus! {

/// The little-endian 16-bit value stored at `data[i..i + 2]`.
pub open spec fn le16(data: Seq<u8>, i: int) -> int {
    data[i] as int + 256 * data[i + 1] as int
}

/// The little-endian 32-bit value stored at `data[i..i + 4]`.
pub open spec fn le32(data: Seq<u8>, i: int) -> int {
    data[i] as int + 256 * data[i + 1] as int + 65536 * data[i + 2] as int + 16777216
        * data[i + 3] as int
}

/// The big-endian 32-bit value stored at `data[i..i + 4]`.
pub open spec fn be32(data: Seq<u8>, i: int) -> int {
    16777216 * data[i] as int + 65536 * data[i + 1] as int + 256 * data[i + 2] as int
        + data[i + 3] as int
}

/// Whether `b` starts with the bytes `p`.
pub open spec fn starts_with_bytes(b: Seq<u8>, p: Seq<u8>) -> bool {
    p.len() <= b.len() && b.take(p.len() as int) == p
}

/// Starting with four given bytes is testing the first four bytes.
pub proof fn lemma_starts_with_4(b: Seq<u8>, x0: u8, x1: u8, x2: u8, x3: u8)
    ensures
        starts_with_bytes(b, seq![x0, x1, x2, x3]) <==> (b.len() >= 4 && b[0] == x0 && b[1] == x1
            && b[2] == x2 && b[3] == x3),
{
    let p = seq![x0, x1, x2, x3];
    if b.len() >= 4 {
        let t = b.take(4);
        assert(t[0] == b[0] && t[1] == b[1] && t[2] == b[2] && t[3] == b[3]);
        if b[0] == x0 && b[1] == x1 && b[2] == x2 && b[3] == x3 {
            assert(t =~= p);
        }
    }
}

/// The index of the first zero byte of `data`, or its length when it holds none.
pub open spec fn first_zero(data: Seq<u8>) -> int
    decreases data.len(),
{
    if data.len() == 0 {
        0
    } else if data[0] == 0 {
        0
    } else {
        1 + first_zero(data.drop_first())
    }
}

/// Reads the little-endian 16-bit value at `data[i..i + 2]`.
pub fn read_le16(data: &[u8], i: usize) -> (r: u16)
    requires
        i + 2 <= data.len(),
    ensures
        r as int == le16(data@, i as int),
{
    data[i] as u16 + (data[i + 1] as u16) * 256
}

/// Reads the little-endian 32-bit value at `data[i..i + 4]`.
pub fn read_le32(data: &[u8], i: usize) -> (r: u32)
    requires
        i + 4 <= data.len(),
    ensures
        r as int == le32(data@, i as int),
{
    data[i] as u32 + (data[i + 1] as u32) * 256 + (data[i + 2] as u32) * 65536 + (data[i
        + 3] as u32) * 16777216
}

/// Reads the big-endian 32-bit value at `data[i..i + 4]`.
pub fn read_be32(data: &[u8], i: usize) -> (r: u32)
    requires
        i + 4 <= data.len(),
    ensures
        r as int == be32(data@, i as int),
{
    (data[i] as u32) * 16777216 + (data[i + 1] as u32) * 65536 + (data[i + 2] as u32) * 256
        + data[i + 3] as u32
}

/// Index of the first zero byte of `data`, or its length when it holds none.
pub fn find_first_zero(data: &[u8]) -> (r: usize)
    ensures
        r as int == first_zero(data@),
        r <= data.len(),
{
    let mut i: usize = 0;
    assert(data@.skip(0) =~= data@);
    while i < data.len()
        invariant
            i <= data.len(),
            first_zero(data@) == i + first_zero(data@.skip(i as int)),
        decreases data.len() - i,
    {
        if data[i] == 0 {
            return i;
        }
        assert(data@.skip(i as int).drop_first() =~= data@.skip(i + 1));
        i = i + 1;
    }
    i
}

/// A copy of `data[start..end]`.
pub fn copy_range(data: &[u8], start: usize, end: usize) -> (r: Vec<u8>)
    requires
        start <= end <= data.len(),
    ensures
        r@ == data@.subrange(start as int, end as int),
{
    let mut v: Vec<u8> = Vec::new();
    let mut i: usize = start;
    while i < end
        invariant
            start <= i <= end <= data.len(),
            v@ == data@.subrange(start as int, i as int),
        decreases end - i,
    {
        v.push(data[i]);
        assert(data@.subrange(start as int, i + 1) =~= data@.subrange(start as int, i as int).push(
            data@[i as int],
        ));
        i = i + 1;
    }
    v
}

} // verus!
