//! The record checksum, CRC-32 in its CKSUM variant.

use vstd::prelude::*;

verus! {

/// The value that the CRC-32/CKSUM algorithm assigns to a byte sequence.
///
/// The algorithm is a pure function of the bytes alone, so the value is left
/// abstract here; executable code obtains it through `crc32_checksum`.
pub uninterp spec fn crc32_cksum(data: Seq<u8>) -> u32;

/// Relies on `crc::Crc::<u32>::new(&crc::CRC_32_CKSUM).checksum`: the
/// CRC-32/CKSUM digest of the given bytes, a deterministic function of the
/// byte sequence alone.
#[verifier::external_body]
pub(crate) fn crc32_checksum(data: &Vec<u8>) -> (r: u32)
    ensures
        r == crc32_cksum(data@),
{
    crc::Crc::<u32>::new(&crc::CRC_32_CKSUM).checksum(data.as_slice())
}

} // verus!
