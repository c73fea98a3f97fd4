use vstd::prelude::*;

verus! {

/// The CRC-32 (IEEE polynomial) checksum of a byte sequence, as computed by
/// `crc32fast::hash`.
pub uninterp spec fn crc32_of(bytes: Seq<u8>) -> u32;

/// Relies on `crc32fast::hash`: computes the CRC-32 (IEEE) checksum of the
/// given bytes; the result is a function of the input bytes alone.
pub assume_specification[ crc32fast::hash ](buf: &[u8]) -> (r: u32)
    ensures
        r == crc32_of(buf@),
;

} // verus!
