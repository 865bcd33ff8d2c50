use vstd::prelude::*;

verus! {

/// The checksum that identifies a file in the pack index: the value that
/// `assembly_pack::crc::calculate_crc` computes from the UTF-8 bytes of a
/// relative path string. It is a pure function of the path's characters,
/// the same in every process and on every machine.
pub uninterp spec fn crc_of(path: Seq<char>) -> u32;

/// Relies on `assembly_pack::crc::calculate_crc`: a pure CRC-32 digest of
/// the path's bytes (after the crate's own case and slash normalization),
/// hence a function of the path's characters alone.
#[verifier::external_body]
pub(crate) fn path_crc(path: &str) -> (r: u32)
    ensures
        r == crc_of(path@),
{
    assembly_pack::crc::calculate_crc(path.as_bytes())
}

} // verus!
