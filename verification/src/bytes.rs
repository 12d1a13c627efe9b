//! Native-endian conversions between integers and the byte layout that the
//! kernel maps use.

use vstd::prelude::*;
use vstd::endian::{endianness, Endian};

verus! {

/// Little-endian value of four bytes.
pub open spec fn le_u32(b: Seq<u8>) -> int {
    b[0] + 256 * b[1] + 65536 * b[2] + 16777216 * b[3]
}

/// Big-endian value of four bytes.
pub open spec fn be_u32(b: Seq<u8>) -> int {
    16777216 * b[0] + 65536 * b[1] + 256 * b[2] + b[3]
}

/// Value of four bytes in the byte order of the executing machine.
pub open spec fn ne_u32(b: Seq<u8>) -> int {
    match endianness() {
        Endian::Little => le_u32(b),
        Endian::Big => be_u32(b),
    }
}

/// Four bytes hold a value that fits in a `u32`.
pub proof fn lemma_ne_u32_bound(b: Seq<u8>)
    requires
        b.len() == 4,
    ensures
        0 <= ne_u32(b) <= u32::MAX,
{
    let x0 = b[0];
    let x1 = b[1];
    let x2 = b[2];
    let x3 = b[3];
    assert(0 <= x0 <= 255 && 0 <= x1 <= 255 && 0 <= x2 <= 255 && 0 <= x3 <= 255);
}

/// Calls `u32::from_ne_bytes`: the bytes read in the machine's byte order.
#[verifier::external_body]
pub(crate) fn u32_from_ne_bytes(b: [u8; 4]) -> (v: u32)
    ensures
        v == ne_u32(b@),
{
    u32::from_ne_bytes(b)
}


/// Calls `u32::to_ne_bytes`: the four bytes that, read in the machine's
/// byte order, give back `v`.
#[verifier::external_body]
pub(crate) fn u32_to_ne_bytes(v: u32) -> (b: [u8; 4])
    ensures
        ne_u32(b@) == v,
{
    v.to_ne_bytes()
}

/// Little-endian value of eight bytes.
pub open spec fn le_u64(b: Seq<u8>) -> int {
    b[0] + 0x100 * b[1] + 0x1_0000 * b[2] + 0x100_0000 * b[3] + 0x1_0000_0000 * b[4]
        + 0x100_0000_0000 * b[5] + 0x1_0000_0000_0000 * b[6] + 0x100_0000_0000_0000 * b[7]
}

/// Big-endian value of eight bytes.
pub open spec fn be_u64(b: Seq<u8>) -> int {
    b[7] + 0x100 * b[6] + 0x1_0000 * b[5] + 0x100_0000 * b[4] + 0x1_0000_0000 * b[3]
        + 0x100_0000_0000 * b[2] + 0x1_0000_0000_0000 * b[1] + 0x100_0000_0000_0000 * b[0]
}

/// Value of eight bytes in the byte order of the executing machine.
pub open spec fn ne_u64(b: Seq<u8>) -> int {
    match endianness() {
        Endian::Little => le_u64(b),
        Endian::Big => be_u64(b),
    }
}

/// Calls `u64::from_ne_bytes`: the bytes read in the machine's byte order.
#[verifier::external_body]
pub(crate) fn u64_from_ne_bytes(b: [u8; 8]) -> (v: u64)
    ensures
        v == ne_u64(b@),
{
    u64::from_ne_bytes(b)
}

/// Calls `u64::to_ne_bytes`: the eight bytes that, read in the machine's
/// byte order, give back `v`.
#[verifier::external_body]
pub(crate) fn u64_to_ne_bytes(v: u64) -> (b: [u8; 8])
    ensures
        ne_u64(b@) == v,
{
    v.to_ne_bytes()
}

} // verus!
