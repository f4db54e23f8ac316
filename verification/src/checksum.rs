//! The CRC-32 used throughout the protocol: framing trailer, per-chunk
//! sub-CRC, whole-image CRC, and the settings-block header all use the
//! same fixed parameterization (the `cksum` variant).

use vstd::prelude::*;

verus! {

/// The CRC-32 (`cksum` parameterization) of a byte sequence. The value is
/// a pure function of the bytes; only the outside checksum routine knows it.
pub uninterp spec fn crc32_of(data: Seq<u8>) -> u32;

/// Relies on `crc::Crc::<u32>::checksum` with the `CRC_32_CKSUM` algorithm:
/// the checksum of a byte slice, a function of those bytes alone.
#[verifier::external_body]
pub fn crc32(data: &[u8]) -> (r: u32)
    ensures
        r == crc32_of(data@),
{
    crc::Crc::<u32>::new(&crc::CRC_32_CKSUM).checksum(data)
}

} // verus!
