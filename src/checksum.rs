use vstd::prelude::*;

use crate::layout::{read_u32, u32_at};

verus! {

/// The CRC-32C (Castagnoli) checksum of `b`.
pub uninterp spec fn crc32c_of(b: Seq<u8>) -> u32;

/// Relies on crc::crc32::checksum_castagnoli: the CRC-32C of the bytes,
/// which depends on them alone.
#[verifier::external_body]
fn crc32c(b: &[u8]) -> (r: u32)
    ensures
        r == crc32c_of(b@),
{
    crc::crc32::checksum_castagnoli(b)
}

/// Size of the checksum field at the start of a node; the checksum covers
/// what follows it.
pub const CHECKSUM_SIZE: usize = 32;

/// Whether node `b` stores `crc` as its checksum (in its first four bytes).
pub open spec fn stores_checksum(b: Seq<u8>, crc: u32) -> bool {
    b.len() >= CHECKSUM_SIZE && u32_at(b, 0) == crc
}

/// Whether node `b` stores the checksum of the bytes after its checksum field.
pub open spec fn node_checksum_ok(b: Seq<u8>) -> bool {
    b.len() >= CHECKSUM_SIZE && stores_checksum(b, crc32c_of(b.subrange(CHECKSUM_SIZE as int, b.len() as int)))
}

/// Whether node `b` stores `crc` as its checksum.
pub fn checksum_matches(b: &[u8], crc: u32) -> (r: bool)
    ensures
        r == stores_checksum(b@, crc),
{
    b.len() >= CHECKSUM_SIZE && read_u32(b, 0) == crc
}

/// Whether node `b` stores the checksum of the bytes after its checksum field.
pub fn verify_node_checksum(b: &[u8]) -> (r: bool)
    ensures
        r == node_checksum_ok(b@),
{
    if b.len() < CHECKSUM_SIZE {
        return false;
    }
    let crc = crc32c(&b[CHECKSUM_SIZE..b.len()]);
    checksum_matches(b, crc)
}

} // verus!
