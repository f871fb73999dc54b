use vstd::bytes::*;
use vstd::prelude::*;

use crate::error::ErrorKind;

verus! {

/// The little-endian bytes of a `u32`.
pub open spec fn le32(x: u32) -> Seq<u8> {
    spec_u32_to_le_bytes(x)
}

/// The little-endian bytes of a `u64`.
pub open spec fn le64(x: u64) -> Seq<u8> {
    spec_u64_to_le_bytes(x)
}

/// The little-endian bytes of a `u16`.
pub open spec fn le16(x: u16) -> Seq<u8> {
    spec_u16_to_le_bytes(x)
}

/// The `u16` whose little-endian bytes are `b[at..at + 2]`.
pub open spec fn get16(b: Seq<u8>, at: int) -> u16 {
    spec_u16_from_le_bytes(b.subrange(at, at + 2))
}

/// The `u32` whose little-endian bytes are `b[at..at + 4]`.
pub open spec fn get32(b: Seq<u8>, at: int) -> u32 {
    spec_u32_from_le_bytes(b.subrange(at, at + 4))
}

/// The `u64` whose little-endian bytes are `b[at..at + 8]`.
pub open spec fn get64(b: Seq<u8>, at: int) -> u64 {
    spec_u64_from_le_bytes(b.subrange(at, at + 8))
}

/// Encoding then decoding gives the value back, and each encoding has its
/// fixed length.
pub proof fn lemma_le_round_trip()
    ensures
        forall|x: u16|
            #![trigger le16(x)]
            le16(x).len() == 2 && spec_u16_from_le_bytes(le16(x)) == x,
        forall|x: u32|
            #![trigger le32(x)]
            le32(x).len() == 4 && spec_u32_from_le_bytes(le32(x)) == x,
        forall|x: u64|
            #![trigger le64(x)]
            le64(x).len() == 8 && spec_u64_from_le_bytes(le64(x)) == x,
{
    lemma_auto_spec_u16_to_from_le_bytes();
    lemma_auto_spec_u32_to_from_le_bytes();
    lemma_auto_spec_u64_to_from_le_bytes();
    assert forall|x: u16| #![trigger le16(x)] le16(x).len() == 2 && spec_u16_from_le_bytes(le16(x)) == x by {
        assert(spec_u16_to_le_bytes(x).len() == 2);
    }
    assert forall|x: u32| #![trigger le32(x)] le32(x).len() == 4 && spec_u32_from_le_bytes(le32(x)) == x by {
        assert(spec_u32_to_le_bytes(x).len() == 4);
    }
    assert forall|x: u64| #![trigger le64(x)] le64(x).len() == 8 && spec_u64_from_le_bytes(le64(x)) == x by {
        assert(spec_u64_to_le_bytes(x).len() == 8);
    }
}

/// Eight zero bytes read as `0`.
pub proof fn lemma_zero_u64(b: Seq<u8>)
    requires
        b.len() == 8,
        forall|i: int| 0 <= i < 8 ==> b[i] == 0,
    ensures
        spec_u64_from_le_bytes(b) == 0,
{
    lemma_le_round_trip();
    spec_u64_to_le_bytes_to_open(0);
    assert(((0u64 >> 8) & 0xff) == 0 && ((0u64 >> 16) & 0xff) == 0 && ((0u64 >> 24) & 0xff) == 0
        && ((0u64 >> 32) & 0xff) == 0 && ((0u64 >> 40) & 0xff) == 0 && ((0u64 >> 48) & 0xff) == 0
        && ((0u64 >> 56) & 0xff) == 0 && (0u64 & 0xff) == 0) by (bit_vector);
    assert(le64(0) =~= b);
}

/// Appends the little-endian bytes of `x`.
pub fn put_u16(out: &mut Vec<u8>, x: u16)
    ensures
        final(out)@ == old(out)@ + le16(x),
{
    let b = u16_to_le_bytes(x);
    out.push(b[0]);
    out.push(b[1]);
    assert(out@ =~= old(out)@ + le16(x));
}

/// Reads a little-endian `u16` at `*pos` and moves past it; fails with
/// `UnexpectedEof` when fewer than two bytes are left.
pub fn take_u16(buf: &[u8], pos: &mut usize) -> (r: Result<u16, ErrorKind>)
    ensures
        *old(pos) + 2 <= buf@.len() ==> r == Ok::<u16, ErrorKind>(get16(buf@, *old(pos) as int))
            && *final(pos) == *old(pos) + 2,
        *old(pos) + 2 > buf@.len() ==> r == Err::<u16, ErrorKind>(ErrorKind::UnexpectedEof)
            && *final(pos) == *old(pos),
{
    if *pos <= buf.len() && buf.len() - *pos >= 2 {
        let x = u16_from_le_bytes(vstd::slice::slice_subrange(buf, *pos, *pos + 2));
        *pos = *pos + 2;
        Ok(x)
    } else {
        Err(ErrorKind::UnexpectedEof)
    }
}

/// Appends the little-endian bytes of `x`.
pub fn put_u32(out: &mut Vec<u8>, x: u32)
    ensures
        final(out)@ == old(out)@ + le32(x),
{
    let b = u32_to_le_bytes(x);
    let mut i: usize = 0;
    while i < 4
        invariant
            b@ == le32(x),
            b@.len() == 4,
            i <= 4,
            out@ == old(out)@ + b@.subrange(0, i as int),
        decreases 4 - i,
    {
        out.push(b[i]);
        i = i + 1;
        assert(out@ =~= old(out)@ + b@.subrange(0, i as int));
    }
    assert(b@.subrange(0, 4) =~= b@);
}

/// Appends the little-endian bytes of `x`.
pub fn put_u64(out: &mut Vec<u8>, x: u64)
    ensures
        final(out)@ == old(out)@ + le64(x),
{
    let b = u64_to_le_bytes(x);
    let mut i: usize = 0;
    while i < 8
        invariant
            b@ == le64(x),
            b@.len() == 8,
            i <= 8,
            out@ == old(out)@ + b@.subrange(0, i as int),
        decreases 8 - i,
    {
        out.push(b[i]);
        i = i + 1;
        assert(out@ =~= old(out)@ + b@.subrange(0, i as int));
    }
    assert(b@.subrange(0, 8) =~= b@);
}

/// Reads the byte at `*pos` and moves past it; fails with `UnexpectedEof`
/// at the end of `buf`.
pub fn take_u8(buf: &[u8], pos: &mut usize) -> (r: Result<u8, ErrorKind>)
    ensures
        *old(pos) < buf@.len() ==> r == Ok::<u8, ErrorKind>(buf@[*old(pos) as int]) && *final(pos)
            == *old(pos) + 1,
        *old(pos) >= buf@.len() ==> r == Err::<u8, ErrorKind>(ErrorKind::UnexpectedEof) && *final(pos) == *old(pos),
{
    if *pos < buf.len() {
        let b = buf[*pos];
        *pos = *pos + 1;
        Ok(b)
    } else {
        Err(ErrorKind::UnexpectedEof)
    }
}

/// Reads a little-endian `u32` at `*pos` and moves past it; fails with
/// `UnexpectedEof` when fewer than four bytes are left.
pub fn take_u32(buf: &[u8], pos: &mut usize) -> (r: Result<u32, ErrorKind>)
    ensures
        *old(pos) + 4 <= buf@.len() ==> r == Ok::<u32, ErrorKind>(get32(buf@, *old(pos) as int))
            && *final(pos) == *old(pos) + 4,
        *old(pos) + 4 > buf@.len() ==> r == Err::<u32, ErrorKind>(ErrorKind::UnexpectedEof)
            && *final(pos) == *old(pos),
{
    if *pos <= buf.len() && buf.len() - *pos >= 4 {
        let x = u32_from_le_bytes(vstd::slice::slice_subrange(buf, *pos, *pos + 4));
        *pos = *pos + 4;
        Ok(x)
    } else {
        Err(ErrorKind::UnexpectedEof)
    }
}

/// Reads a little-endian `u64` at `*pos` and moves past it; fails with
/// `UnexpectedEof` when fewer than eight bytes are left.
pub fn take_u64(buf: &[u8], pos: &mut usize) -> (r: Result<u64, ErrorKind>)
    ensures
        *old(pos) + 8 <= buf@.len() ==> r == Ok::<u64, ErrorKind>(get64(buf@, *old(pos) as int))
            && *final(pos) == *old(pos) + 8,
        *old(pos) + 8 > buf@.len() ==> r == Err::<u64, ErrorKind>(ErrorKind::UnexpectedEof)
            && *final(pos) == *old(pos),
{
    if *pos <= buf.len() && buf.len() - *pos >= 8 {
        let x = u64_from_le_bytes(vstd::slice::slice_subrange(buf, *pos, *pos + 8));
        *pos = *pos + 8;
        Ok(x)
    } else {
        Err(ErrorKind::UnexpectedEof)
    }
}

} // verus!
