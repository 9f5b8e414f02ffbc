use vstd::prelude::*;
use vstd::utf8::{encode_utf8, valid_utf8};

use crate::{Error, ErrorKind};

verus! {

/// The CRC-32 of `bytes` under the ISO-HDLC algorithm (the gzip checksum).
/// The checksum is a pure function of the bytes; its defining polynomial
/// arithmetic is left to the outside implementation.
pub uninterp spec fn crc32_of(bytes: Seq<u8>) -> u32;

/// Relies on crc::Crc::<u32>::checksum with crc::CRC_32_ISO_HDLC: it computes
/// the gzip CRC-32 of the given bytes, a function of the bytes alone.
#[verifier::external_body]
pub fn crc32_checksum(bytes: &[u8]) -> (r: u32)
    ensures
        r == crc32_of(bytes@),
{
    crc::Crc::<u32>::new(&crc::CRC_32_ISO_HDLC).checksum(bytes)
}

/// Relies on String::from_utf8: it returns Ok exactly when the bytes are
/// valid UTF-8, and the returned string's bytes are the input bytes.
#[verifier::external_body]
pub fn utf8_from_bytes(bytes: Vec<u8>) -> (r: Result<String, Error>)
    ensures
        match r {
            Ok(s) => valid_utf8(bytes@) && encode_utf8(s@) == bytes@,
            Err(e) => e == Error::InvalidData(ErrorKind::HeaderNotUtf8) && !valid_utf8(bytes@),
        },
{
    match String::from_utf8(bytes) {
        Ok(s) => Ok(s),
        Err(_) => Err(Error::InvalidData(ErrorKind::HeaderNotUtf8)),
    }
}

/// Relies on Vec::capacity: a vector's capacity is at least its length.
#[verifier::external_body]
pub fn vec_capacity<T>(v: &Vec<T>) -> (r: usize)
    ensures
        r >= v@.len(),
{
    v.capacity()
}

} // verus!
