//! The CRC-32 that closes every PNG chunk.

use flate2::Crc;
use vstd::prelude::*;

verus! {

/// `flate2::Crc`, the running checksum.
#[verifier::external_type_specification]
#[verifier::external_body]
pub struct ExCrc(flate2::Crc);

/// The bytes that a running checksum has taken in, first to last.
pub uninterp spec fn crc_fed(crc: flate2::Crc) -> Seq<u8>;

/// A bit leaves the register; where it was set, the polynomial is taken off.
pub open spec fn crc_shifted(register: u32) -> u32 {
    if register & 1 == 1 {
        (register >> 1) ^ 0xedb8_8320
    } else {
        register >> 1
    }
}

/// The register once it is shifted `count` times.
pub open spec fn crc_shifted_by(register: u32, count: nat) -> u32
    decreases count,
{
    if count == 0 {
        register
    } else {
        crc_shifted(crc_shifted_by(register, (count - 1) as nat))
    }
}

/// The register once all of `bytes` went through it, eight bits at a time.
pub open spec fn crc_register(bytes: Seq<u8>) -> u32
    decreases bytes.len(),
{
    if bytes.len() == 0 {
        0xffff_ffff
    } else {
        crc_shifted_by(crc_register(bytes.drop_last()) ^ bytes.last() as u32, 8)
    }
}

/// The CRC-32 of a byte sequence.
#[verifier::opaque]
pub open spec fn crc32(bytes: Seq<u8>) -> u32 {
    !crc_register(bytes)
}

/// `flate2::Crc::new` starts a checksum that has taken nothing in.
pub assume_specification[ flate2::Crc::new ]() -> (crc: flate2::Crc)
    ensures
        crc_fed(crc) == Seq::<u8>::empty(),
;

/// `flate2::Crc::update` takes `data` in behind what it had.
pub assume_specification[ flate2::Crc::update ](crc: &mut flate2::Crc, data: &[u8])
    ensures
        crc_fed(*final(crc)) == crc_fed(*old(crc)) + data@,
;

/// `flate2::Crc::sum` is the CRC-32 of everything taken in: the checksum with the
/// reflected polynomial 0xedb88320, which starts from all ones and is inverted
/// at the end.
pub assume_specification[ flate2::Crc::sum ](crc: &flate2::Crc) -> (sum: u32)
    ensures
        sum == crc32(crc_fed(*crc)),
;

/// The checksum of a chunk: its type, then its data.
pub fn chunk_crc(chunk_type: &[u8], data: &[u8]) -> (sum: u32)
    ensures
        sum == crc32(chunk_type@ + data@),
{
    let mut crc = Crc::new();
    crc.update(chunk_type);
    crc.update(data);
    assert(Seq::<u8>::empty() + chunk_type@ == chunk_type@);
    crc.sum()
}

} // verus!
