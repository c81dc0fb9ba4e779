//! Little-endian byte helpers used throughout the on-disk format.

use vstd::prelude::*;

verus! {

/// Every sector of the volume holds this many bytes.
pub const BLOCK_SIZE: usize = 512;

/// Value of two bytes read as a little-endian integer.
pub open spec fn le16(b: Seq<u8>) -> int {
    b[0] + 0x100 * b[1]
}

/// Value of four bytes read as a little-endian integer.
pub open spec fn le32(b: Seq<u8>) -> int {
    b[0] + 0x100 * b[1] + 0x10000 * b[2] + 0x1000000 * b[3]
}

pub fn u16_from_le_bytes(bytes: &[u8]) -> (r: u16)
    requires
        bytes@.len() >= 2,
    ensures
        r == le16(bytes@),
{
    let b0 = bytes[0] as u16;
    let b1 = bytes[1] as u16;
    b0 + 0x100 * b1
}

pub fn u32_from_le_bytes(bytes: &[u8]) -> (r: u32)
    requires
        bytes@.len() >= 4,
    ensures
        r == le32(bytes@),
{
    let b0 = bytes[0] as u32;
    let b1 = bytes[1] as u32;
    let b2 = bytes[2] as u32;
    let b3 = bytes[3] as u32;
    b0 + 0x100 * b1 + 0x10000 * b2 + 0x1000000 * b3
}

pub fn u16_to_le_bytes(x: u16) -> (r: Vec<u8>)
    ensures
        r@.len() == 2,
        le16(r@) == x,
{
    let mut r: Vec<u8> = Vec::new();
    r.push((x % 0x100) as u8);
    r.push((x / 0x100) as u8);
    r
}

pub fn u32_to_le_bytes(x: u32) -> (r: Vec<u8>)
    ensures
        r@.len() == 4,
        le32(r@) == x,
{
    let mut r: Vec<u8> = Vec::new();
    r.push((x % 0x100) as u8);
    r.push(((x / 0x100) % 0x100) as u8);
    r.push(((x / 0x10000) % 0x100) as u8);
    r.push((x / 0x1000000) as u8);
    r
}

} // verus!
