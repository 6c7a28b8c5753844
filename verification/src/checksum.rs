//! Checksums guarding the on-disk record formats.
//!
//! The record-length checksum is a CRC-16 (IBM-SDLC) over the length
//! bytes, the collection-sequence bytes and the collection-id bytes, so
//! a stale length left from a prior use of a reclaimed region is
//! rejected.  Entry bodies are guarded by a CRC-32 (iSCSI).  Both are
//! computed by the `crc` crate; the values are pure functions of the
//! input bytes, named below and left otherwise unspecified.

use vstd::prelude::*;

verus! {

/// The CRC-16 (IBM-SDLC) of a byte sequence.
pub uninterp spec fn crc16_of(data: Seq<u8>) -> u16;

/// The CRC-32 (iSCSI) of a byte sequence.
pub uninterp spec fn crc32_of(data: Seq<u8>) -> u32;

/// Relies on `crc::Crc::<u16>::checksum` with the `CRC_16_IBM_SDLC`
/// algorithm: the checksum is a function of the input bytes alone.
#[verifier::external_body]
pub(crate) fn crc16(data: &[u8]) -> (r: u16)
    ensures
        r == crc16_of(data@),
{
    crc::Crc::<u16>::new(&crc::CRC_16_IBM_SDLC).checksum(data)
}

/// Relies on `crc::Crc::<u32>::checksum` with the `CRC_32_ISCSI`
/// algorithm: the checksum is a function of the input bytes alone.
#[verifier::external_body]
pub(crate) fn crc32(data: &[u8]) -> (r: u32)
    ensures
        r == crc32_of(data@),
{
    crc::Crc::<u32>::new(&crc::CRC_32_ISCSI).checksum(data)
}

} // verus!
