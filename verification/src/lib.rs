pub mod bit_reader;
pub mod bst;
pub mod combinations;
pub mod deflate;
pub mod flat_map;
pub mod gzip;
pub mod pstack;
pub mod trust;
pub mod trusted;

use vstd::prelude::*;

verus! {

/// Shared error type of the whole decoder; see the per-module contracts
/// for exactly which variant each failure produces.
#[derive(Clone, PartialEq, Eq, Debug)]
pub enum Error {
    /// The input ended in the middle of a read.
    UnexpectedEof,
    /// A structural violation of the container or the compressed stream.
    InvalidData(ErrorKind),
    /// A compression method other than DEFLATE.
    Unsupported(ErrorKind),
    /// The output sink did not accept all bytes handed to it.
    Io(ErrorKind),
}

/// What exactly went wrong; one variant per distinct structural check.
#[derive(Clone, Copy, PartialEq, Eq, Debug)]
pub enum ErrorKind {
    BadMagic,
    ReservedFlagBits,
    BadCompressionMethod,
    HeaderCrcMismatch,
    HeaderNotUtf8,
    ReservedBlockType,
    StoredLengthMismatch,
    CodeLengthTooLong,
    TooManySymbols,
    OversubscribedCode,
    IncompleteCode,
    BadHuffmanCode,
    NoPreviousCodeLength,
    CodeLengthOverrun,
    DistanceTooFarBack,
    FooterCrcMismatch,
    FooterLengthMismatch,
    SinkFull,
}

/// Decompresses a byte stream of one or more concatenated gzip members,
/// returning the reconstructed plaintext; any structural violation,
/// checksum mismatch or early end of input aborts with an error.
pub fn decompress(input: Vec<u8>) -> (r: Result<Vec<u8>, Error>)
    ensures
        r is Ok ==> input@.len() >= 10 && input@[0] == 0x1f && input@[1] == 0x8b && input@[2]
            == 8,
        r matches Ok(out) ==> gzip::trailer_matches(input@, out@),
        r matches Ok(out) ==> gzip::members_run(
            input@,
            0,
            Seq::empty(),
            input@.len() as int,
            out@,
        ),
        input@.len() == 0 ==> r == Err::<Vec<u8>, Error>(Error::UnexpectedEof),
        input@.len() >= 1 && input@[0] != 0x1f ==> r == Err::<Vec<u8>, Error>(
            Error::InvalidData(ErrorKind::BadMagic),
        ),
        input@.len() >= 2 && input@[0] == 0x1f && input@[1] != 0x8b ==> r == Err::<Vec<u8>, Error>(
            Error::InvalidData(ErrorKind::BadMagic),
        ),
        input@.len() >= 3 && input@[0] == 0x1f && input@[1] == 0x8b && input@[2] != 8 ==> r
            == Err::<Vec<u8>, Error>(Error::Unsupported(ErrorKind::BadCompressionMethod)),
        input@.len() >= 4 && input@[0] == 0x1f && input@[1] == 0x8b && input@[2] == 8 && input@[3]
            >= 32 ==> r == Err::<Vec<u8>, Error>(Error::InvalidData(ErrorKind::ReservedFlagBits)),
        r is Ok ==> gzip::header_ok(input@, 0),
        ({
            let d = input@;
            (d.len() >= 10 && d[0] == 0x1f && d[1] == 0x8b && d[2] == 8 && d[3] < 32 && d[3] & 2
                == 2 && (gzip::header_fields_end(d, 0) matches Some(q) && q + 2 <= d.len()
                && crate::bit_reader::le16(d, q) != (crate::trusted::crc32_of(d.subrange(0, q))
                & 0xffff) as u16)) ==> r == Err::<Vec<u8>, Error>(
                Error::InvalidData(ErrorKind::HeaderCrcMismatch),
            )
        }),
        gzip::single_stored_member(input@) ==> (r matches Ok(out) && out@
            == gzip::single_stored_payload(input@)),
        gzip::single_fixed_member(input@) ==> r is Ok,
        gzip::single_dynamic_member(input@) ==> r is Ok,
        gzip::members_fit(input@, 0, Seq::empty()) ==> r is Ok,
        gzip::single_stored_frame(input@) && crate::bit_reader::le32(
            input@,
            gzip::stored_trailer_at(input@),
        ) != trusted::crc32_of(gzip::single_stored_payload(input@)) ==> r == Err::<Vec<u8>, Error>(
            Error::InvalidData(ErrorKind::FooterCrcMismatch),
        ),
        gzip::single_stored_frame(input@) && crate::bit_reader::le32(
            input@,
            gzip::stored_trailer_at(input@),
        ) == trusted::crc32_of(gzip::single_stored_payload(input@)) && crate::bit_reader::le32(
            input@,
            gzip::stored_trailer_at(input@) + 4,
        ) != crate::bit_reader::le16(
            input@,
            crate::bit_reader::spec_align_up(8 * gzip::header_end(input@, 0) + 3),
        ) ==> r == Err::<Vec<u8>, Error>(Error::InvalidData(ErrorKind::FooterLengthMismatch)),
{
    let gz = gzip::GzipReader::new(input);
    gz.decode()
}

} // verus!
