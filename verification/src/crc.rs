//! CRC-32C (Castagnoli) checksums, relied on for record corruption
//! detection.

use vstd::prelude::*;

verus! {

/// The CRC-32C checksum of a byte sequence. The checksum is a pure
/// function of the bytes; its value is not modeled further.
pub uninterp spec fn crc32c_of(data: Seq<u8>) -> u32;

/// Relies on crc32c::crc32c: the CRC-32C (Castagnoli) checksum of the
/// input, a function of the input bytes alone.
#[verifier::external_body]
pub fn checksum(data: &[u8]) -> (r: u32)
    ensures
        r == crc32c_of(data@),
{
    crc32c::crc32c(data)
}

} // verus!
