//! The hash router: a key's textual form is checksummed with CRC-16/XMODEM
//! and reduced modulo the shard count. Identical inputs give identical shard
//! ids on any host.
use vstd::prelude::*;
use vstd::string::StringSliceAdditionalSpecFns;

verus! {

/// The CRC-16/XMODEM checksum of a run of bytes: what the checksum crate
/// returns, a function of the bytes alone.
pub uninterp spec fn crc16_of(bytes: Seq<u8>) -> u16;

/// Relies on `crc16_xmodem_fast::hash`: the CRC-16/XMODEM checksum of the
/// given bytes, deterministic in them. The crate computes it in a 32-bit
/// register and masks the result to 16 bits on every path, so the narrowing
/// below keeps the value.
#[verifier::external_body]
pub(crate) fn crc16(data: &[u8]) -> (r: u16)
    ensures
        r == crc16_of(data@),
{
    crc16_xmodem_fast::hash(data) as u16
}

/// The shard id a string routes to: its CRC-16/XMODEM checksum, reduced
/// modulo the shard count. Callers keep `num_shards` at least 1.
pub fn hash_id(val: &str, num_shards: u16) -> (r: u16)
    requires
        num_shards >= 1,
    ensures
        r == crc16_of(val.spec_bytes()) % num_shards,
        r < num_shards,
{
    crc16(val.as_bytes()) % num_shards
}

} // verus!
