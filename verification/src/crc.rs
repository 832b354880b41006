use vstd::prelude::*;

verus! {

/// The CRC-32 (zlib / IEEE 802.3 polynomial) of a byte sequence, as
/// `crc32fast::hash` computes it.
pub uninterp spec fn crc32_of(data: Seq<u8>) -> u32;

/// Calls `crc32fast::hash`. The contract claims only that the result is the
/// value named [`crc32_of`] for the bytes handed over: `crc32fast::hash` is a
/// pure function of its input.
#[verifier::external_body]
pub(crate) fn crc32_hash(data: &[u8]) -> (r: u32)
    ensures
        r == crc32_of(data@),
{
    crc32fast::hash(data)
}

} // verus!
