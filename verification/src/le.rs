//! Little-endian integers, as every table of the archive stores them.

use byteorder::{ByteOrder, LittleEndian};
use vstd::prelude::*;

verus! {

/// The number that two bytes spell, least significant byte first.
pub open spec fn spec_u16_le(b: Seq<u8>) -> int
    recommends
        b.len() >= 2,
{
    b[0] + 0x100 * b[1]
}

/// The number that four bytes spell, least significant byte first.
pub open spec fn spec_u32_le(b: Seq<u8>) -> int
    recommends
        b.len() >= 4,
{
    b[0] + 0x100 * b[1] + 0x1_0000 * b[2] + 0x100_0000 * b[3]
}

/// The 16-bit number stored at `off` in `data`.
pub open spec fn spec_u16_at(data: Seq<u8>, off: int) -> int
    recommends
        0 <= off,
        off + 2 <= data.len(),
{
    spec_u16_le(data.subrange(off, off + 2))
}

/// The 32-bit number stored at `off` in `data`.
pub open spec fn spec_u32_at(data: Seq<u8>, off: int) -> int
    recommends
        0 <= off,
        off + 4 <= data.len(),
{
    spec_u32_le(data.subrange(off, off + 4))
}

/// `byteorder::LittleEndian::read_u16`: decodes the first two bytes of `buf`,
/// least significant first. It panics on a shorter slice, which `requires`
/// leaves out.
#[verifier::external_body]
pub(crate) fn read_u16(buf: &[u8]) -> (v: u16)
    requires
        buf@.len() >= 2,
    ensures
        v == spec_u16_le(buf@),
{
    LittleEndian::read_u16(buf)
}

/// `byteorder::LittleEndian::read_u32`: decodes the first four bytes of `buf`,
/// least significant first. It panics on a shorter slice, which `requires`
/// leaves out.
#[verifier::external_body]
pub(crate) fn read_u32(buf: &[u8]) -> (v: u32)
    requires
        buf@.len() >= 4,
    ensures
        v == spec_u32_le(buf@),
{
    LittleEndian::read_u32(buf)
}

/// The length of a slice is a `usize`.
pub proof fn lemma_len_fits(data: &[u8])
    ensures
        data@.len() <= usize::MAX,
{
    broadcast use vstd::slice::axiom_spec_len;

    assert(vstd::slice::spec_slice_len(data) == data@.len());
}

/// Reads the 16-bit number stored at `off`.
pub fn u16_at(data: &[u8], off: usize) -> (v: u16)
    requires
        off + 2 <= data@.len(),
    ensures
        v == spec_u16_at(data@, off as int),
{
    proof {
        lemma_len_fits(data);
    }
    read_u16(vstd::slice::slice_subrange(data, off, off + 2))
}

/// Reads the 32-bit number stored at `off`.
pub fn u32_at(data: &[u8], off: usize) -> (v: u32)
    requires
        off + 4 <= data@.len(),
    ensures
        v == spec_u32_at(data@, off as int),
{
    proof {
        lemma_len_fits(data);
    }
    read_u32(vstd::slice::slice_subrange(data, off, off + 4))
}

} // verus!
