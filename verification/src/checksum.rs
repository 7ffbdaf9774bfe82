//! The CRC-32 checksum of the `crc32fast` crate.
use vstd::prelude::*;

verus! {

/// The CRC-32 (IEEE) checksum of `data`.
pub uninterp spec fn crc32(data: Seq<u8>) -> u32;

/// `crc32fast::hash`: computes the CRC-32 checksum of `buf`. The contract
/// names the result and says nothing of how it is computed.
#[verifier::external_body]
pub fn crc32_hash(buf: &[u8]) -> (r: u32)
    ensures
        r == crc32(buf@),
{
    crc32fast::hash(buf)
}

} // verus!
