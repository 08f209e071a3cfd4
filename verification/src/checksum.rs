//! CRC-32 checksumming of record payloads.
//!
//! Every record stores the IEEE CRC-32 of its payload, computed by the
//! `crc` crate. The checksum is a pure function of the payload bytes, so
//! it is given a name here, `crc32_of`, and contracts elsewhere speak of
//! that name; nothing in this crate states what the checksum of a given
//! payload is.

use vstd::prelude::*;

verus! {

/// The IEEE CRC-32 of a byte sequence, as `crc::crc32::checksum_ieee`
/// computes it.
pub uninterp spec fn crc32_of(data: Seq<u8>) -> u32;

/// Relies on `crc::crc32::checksum_ieee`: the IEEE CRC-32 of the bytes,
/// a function of the byte sequence alone.
#[verifier::external_body]
pub(crate) fn checksum_ieee(data: &[u8]) -> (r: u32)
    ensures
        r == crc32_of(data@),
{
    crc::crc32::checksum_ieee(data)
}

} // verus!
