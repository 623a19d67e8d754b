//! Fixed-size integer layouts and byte-string helpers.

use vstd::prelude::*;

verus! {

pub open spec fn u64_be(x: u64) -> Seq<u8> {
    seq![
        (x / 0x100_0000_0000_0000) as u8,
        ((x / 0x1_0000_0000_0000) % 256) as u8,
        ((x / 0x100_0000_0000) % 256) as u8,
        ((x / 0x1_0000_0000) % 256) as u8,
        ((x / 0x100_0000) % 256) as u8,
        ((x / 0x1_0000) % 256) as u8,
        ((x / 0x100) % 256) as u8,
        (x % 256) as u8,
    ]
}

pub open spec fn u64_le(x: u64) -> Seq<u8> {
    seq![
        (x % 256) as u8,
        ((x / 0x100) % 256) as u8,
        ((x / 0x1_0000) % 256) as u8,
        ((x / 0x100_0000) % 256) as u8,
        ((x / 0x1_0000_0000) % 256) as u8,
        ((x / 0x100_0000_0000) % 256) as u8,
        ((x / 0x1_0000_0000_0000) % 256) as u8,
        (x / 0x100_0000_0000_0000) as u8,
    ]
}

pub open spec fn u32_be(x: u32) -> Seq<u8> {
    seq![
        (x / 0x100_0000) as u8,
        ((x / 0x1_0000) % 256) as u8,
        ((x / 0x100) % 256) as u8,
        (x % 256) as u8,
    ]
}

pub open spec fn u32_le(x: u32) -> Seq<u8> {
    seq![
        (x % 256) as u8,
        ((x / 0x100) % 256) as u8,
        ((x / 0x1_0000) % 256) as u8,
        (x / 0x100_0000) as u8,
    ]
}

/// Two's-complement bits of an `i64`, read as unsigned.
pub open spec fn i64_bits(x: i64) -> u64 {
    if x >= 0 {
        x as u64
    } else {
        (x + 0x1_0000_0000_0000_0000) as u64
    }
}

pub fn push_u64_be(buf: &mut Vec<u8>, x: u64)
    ensures
        final(buf)@ == old(buf)@ + u64_be(x),
{
    buf.push((x / 0x100_0000_0000_0000) as u8);
    buf.push(((x / 0x1_0000_0000_0000) % 256) as u8);
    buf.push(((x / 0x100_0000_0000) % 256) as u8);
    buf.push(((x / 0x1_0000_0000) % 256) as u8);
    buf.push(((x / 0x100_0000) % 256) as u8);
    buf.push(((x / 0x1_0000) % 256) as u8);
    buf.push(((x / 0x100) % 256) as u8);
    buf.push((x % 256) as u8);
    assert(buf@ =~= old(buf)@ + u64_be(x));
}

pub fn push_u64_le(buf: &mut Vec<u8>, x: u64)
    ensures
        final(buf)@ == old(buf)@ + u64_le(x),
{
    buf.push((x % 256) as u8);
    buf.push(((x / 0x100) % 256) as u8);
    buf.push(((x / 0x1_0000) % 256) as u8);
    buf.push(((x / 0x100_0000) % 256) as u8);
    buf.push(((x / 0x1_0000_0000) % 256) as u8);
    buf.push(((x / 0x100_0000_0000) % 256) as u8);
    buf.push(((x / 0x1_0000_0000_0000) % 256) as u8);
    buf.push((x / 0x100_0000_0000_0000) as u8);
    assert(buf@ =~= old(buf)@ + u64_le(x));
}

pub fn push_u32_be(buf: &mut Vec<u8>, x: u32)
    ensures
        final(buf)@ == old(buf)@ + u32_be(x),
{
    buf.push((x / 0x100_0000) as u8);
    buf.push(((x / 0x1_0000) % 256) as u8);
    buf.push(((x / 0x100) % 256) as u8);
    buf.push((x % 256) as u8);
    assert(buf@ =~= old(buf)@ + u32_be(x));
}

pub fn push_u32_le(buf: &mut Vec<u8>, x: u32)
    ensures
        final(buf)@ == old(buf)@ + u32_le(x),
{
    buf.push((x % 256) as u8);
    buf.push(((x / 0x100) % 256) as u8);
    buf.push(((x / 0x1_0000) % 256) as u8);
    buf.push((x / 0x100_0000) as u8);
    assert(buf@ =~= old(buf)@ + u32_le(x));
}

/// The bits of an `i64` read as unsigned.
pub fn i64_to_bits(x: i64) -> (r: u64)
    ensures
        r == i64_bits(x),
{
    if x >= 0 {
        x as u64
    } else {
        let y: i128 = x as i128 + 0x1_0000_0000_0000_0000i128;
        y as u64
    }
}

/// Appends a byte slice.
pub fn extend_bytes(buf: &mut Vec<u8>, s: &[u8])
    ensures
        final(buf)@ == old(buf)@ + s@,
{
    buf.extend_from_slice(s);
    assert(buf@ =~= old(buf)@ + s@);
}

} // verus!
