use vstd::prelude::*;

verus! {

/// The CRC-32 (ISO-HDLC polynomial) checksum of a byte sequence, as PNG uses
/// over a chunk's type and payload bytes.
pub uninterp spec fn crc32_of(bytes: Seq<u8>) -> u32;

/// Relies on crc::Crc::<u32>::checksum with crc::CRC_32_ISO_HDLC: the checksum
/// is computed from the input bytes alone.
#[verifier::external_body]
pub(crate) fn crc32_checksum(bytes: &Vec<u8>) -> (r: u32)
    ensures
        r == crc32_of(bytes@),
{
    crc::Crc::<u32>::new(&crc::CRC_32_ISO_HDLC).checksum(bytes.as_slice())
}

} // verus!
