//! Big-endian writes into byte buffers, made through the `byteorder` crate.
use vstd::prelude::*;
use byteorder::{BigEndian, WriteBytesExt};
use crate::format::{be_u32, be_u64};

verus! {

/// `WriteBytesExt::write_u8` on a `Vec<u8>`: appends the one byte `v`.
/// Writing into a `Vec<u8>` never fails, so the `Result` is always `Ok`.
#[verifier::external_body]
pub(crate) fn write_u8(buf: &mut Vec<u8>, v: u8)
    ensures
        final(buf)@ == old(buf)@.push(v),
{
    buf.write_u8(v).unwrap()
}

/// `WriteBytesExt::write_u32::<BigEndian>` on a `Vec<u8>`: appends the four
/// bytes of `v`, most significant first (byteorder copies `v.to_be_bytes()`).
#[verifier::external_body]
pub(crate) fn write_u32_be(buf: &mut Vec<u8>, v: u32)
    ensures
        final(buf)@ == old(buf)@ + be_u32(v),
{
    buf.write_u32::<BigEndian>(v).unwrap()
}

/// `WriteBytesExt::write_i32::<BigEndian>` on a `Vec<u8>`: appends the four
/// bytes of the two's-complement bit pattern of `v`, most significant first.
#[verifier::external_body]
pub(crate) fn write_i32_be(buf: &mut Vec<u8>, v: i32)
    ensures
        final(buf)@ == old(buf)@ + be_u32(v as u32),
{
    buf.write_i32::<BigEndian>(v).unwrap()
}

/// `WriteBytesExt::write_u64::<BigEndian>` on a `Vec<u8>`: appends the eight
/// bytes of `v`, most significant first.
#[verifier::external_body]
pub(crate) fn write_u64_be(buf: &mut Vec<u8>, v: u64)
    ensures
        final(buf)@ == old(buf)@ + be_u64(v),
{
    buf.write_u64::<BigEndian>(v).unwrap()
}

/// Appends every byte of `src` to `buf`.
pub fn append_bytes(buf: &mut Vec<u8>, src: &[u8])
    ensures
        final(buf)@ == old(buf)@ + src@,
{
    let mut i: usize = 0;
    while i < src.len()
        invariant
            i <= src@.len(),
            buf@ == old(buf)@ + src@.subrange(0, i as int),
        decreases src@.len() - i,
    {
        buf.push(src[i]);
        i += 1;
        assert(buf@ =~= old(buf)@ + src@.subrange(0, i as int));
    }
    assert(src@.subrange(0, i as int) =~= src@);
}

} // verus!
