//! The checksums that end a patch.

use vstd::prelude::*;

verus! {

/// The CRC-32 (IEEE) checksum of `data`.
pub uninterp spec fn crc32(data: Seq<u8>) -> u32;

/// The four bytes of `x`, lowest first.
pub open spec fn le_bytes(x: u32) -> Seq<u8> {
    seq![
        (x % 0x100) as u8,
        (x / 0x100 % 0x100) as u8,
        (x / 0x1_0000 % 0x100) as u8,
        (x / 0x100_0000) as u8,
    ]
}

/// Calls `crc32fast::hash`, which computes the CRC-32 (IEEE) checksum of a
/// byte slice. Nothing is proved of it: the contract only gives the result
/// its name, a function of the bytes alone.
#[verifier::external_body]
pub(crate) fn compute_crc32(data: &[u8]) -> (sum: u32)
    ensures
        sum == crc32(data@),
{
    crc32fast::hash(data)
}

} // verus!
