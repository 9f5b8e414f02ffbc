pub mod header;

use vstd::prelude::*;

use crate::bit_reader::{
    le16, le32, lemma_aligned, lemma_bits_value_byte, lemma_bits_value_le16, lemma_bits_value_le32,
    spec_align_up, BitReader,
};
use crate::deflate::tracking_writer::{is_prefix_of, lemma_prefix_trans, TrackingWriter};
use crate::bit_reader::{bit_at, bits_value};
use crate::deflate::huffman_coding::{
    clen_run, distance_lengths_error, from_lengths_error, lemma_clen_run_deterministic,
    lemma_meta_lens_len, map_of, meta_lens, spec_entries, DistanceToken, LitLenToken,
    TreeCodeToken,
};
use crate::deflate::reader::{
    block_body, block_run, block_run_fits, dynamic_block_fits, final_fixed_block_fits,
    final_stored_block_fits, lemma_block_body_deterministic, lemma_block_run_bounds,
    lemma_block_step_fits, lemma_fixed_tables_accepted, lemma_symbol_run_deterministic,
    spec_block_type, spec_fixed_distance_lengths, spec_fixed_litlen_lengths, symbol_run,
    symbol_run_fits, CompressionType,
};
use crate::deflate::DeflateReader;
use crate::gzip::header::{CompressionMethod, MemberFlags, MemberFooter, MemberHeader};
use crate::trusted::crc32_checksum;
use crate::{Error, ErrorKind};

verus! {

/// Something that can decompress the payload between a member's header and
/// trailer, writing the plain bytes through the tracking writer.
pub trait Decoder {
    spec fn valid(&self) -> bool;

    fn decode(&mut self, reader: &mut BitReader, writer: &mut TrackingWriter) -> (r: Result<
        (),
        Error,
    >)
        requires
            old(self).valid(),
            old(reader).wf(),
            old(writer).wf(),
        ensures
            final(self).valid(),
            final(reader).wf(),
            final(reader).spec_data() == old(reader).spec_data(),
            final(reader).bit_pos() >= old(reader).bit_pos(),
            final(writer).wf(),
            final(writer).limit == old(writer).limit,
            final(writer).member_start == old(writer).member_start,
            final(writer).window_start == old(writer).window_start,
            is_prefix_of(old(writer).spec_written(), final(writer).spec_written()),
            r matches Ok(()) ==> block_run(
                old(reader).spec_data(),
                old(writer).window_start as int,
                old(reader).bit_pos(),
                old(writer).spec_written(),
                final(reader).bit_pos(),
                final(writer).spec_written(),
            ),
            ({
                let d = old(reader).spec_data();
                let p = old(reader).bit_pos();
                (p + 3 <= old(reader).total_bits() && spec_block_type(bits_value(d, p + 1, 2))
                    == CompressionType::Reserved) ==> r == Err::<(), Error>(
                    Error::InvalidData(ErrorKind::ReservedBlockType),
                )
            }),
            final_stored_block_fits(
                old(reader).spec_data(),
                old(reader).bit_pos(),
                old(writer).limit - old(writer).spec_written().len(),
            ) ==> r is Ok,
            final_fixed_block_fits(
                old(reader).spec_data(),
                old(writer).window_start as int,
                old(reader).bit_pos(),
                old(writer).spec_written(),
                old(writer).limit as int,
            ) ==> r is Ok,
            (bit_at(old(reader).spec_data(), old(reader).bit_pos()) == 1 && dynamic_block_fits(
                old(reader).spec_data(),
                old(writer).window_start as int,
                old(reader).bit_pos(),
                old(writer).spec_written(),
                old(writer).limit as int,
            )) ==> r is Ok,
            block_run_fits(
                old(reader).spec_data(),
                old(writer).window_start as int,
                old(reader).bit_pos(),
                old(writer).spec_written(),
                old(writer).limit as int,
            ) ==> r is Ok,
    ;
}

impl Decoder for DeflateReader {
    open spec fn valid(&self) -> bool {
        self.wf()
    }

    /// Reads DEFLATE blocks until the one flagged final.
    #[verifier::loop_isolation(false)]
    fn decode(&mut self, reader: &mut BitReader, writer: &mut TrackingWriter) -> (r: Result<
        (),
        Error,
    >) {
        let ghost d = old(reader).spec_data();
        let ghost pos0 = old(reader).bit_pos();
        let ghost w0 = old(writer).spec_written();
        let ghost wb = old(writer).window_start as int;
        loop
            invariant
                self.wf(),
                reader.wf(),
                reader.spec_data() == d,
                reader.bit_pos() >= old(reader).bit_pos(),
                writer.wf(),
                writer.limit == old(writer).limit,
                writer.member_start == old(writer).member_start,
                writer.window_start == old(writer).window_start,
                is_prefix_of(old(writer).spec_written(), writer.spec_written()),
                forall|p2: int, w2: Seq<u8>|
                    #[trigger] block_run(d, wb, reader.bit_pos(), writer.spec_written(), p2, w2)
                        ==> block_run(d, wb, pos0, w0, p2, w2),
                reader.bit_pos() > pos0 ==> !(pos0 + 3 <= old(reader).total_bits()
                    && spec_block_type(bits_value(d, pos0 + 1, 2)) == CompressionType::Reserved),
                reader.bit_pos() > pos0 ==> !final_stored_block_fits(
                    d,
                    pos0,
                    old(writer).limit - old(writer).spec_written().len(),
                ),
                reader.bit_pos() > pos0 ==> !final_fixed_block_fits(
                    d,
                    wb,
                    pos0,
                    w0,
                    old(writer).limit as int,
                ),
                reader.bit_pos() > pos0 ==> !(bit_at(d, pos0) == 1 && dynamic_block_fits(
                    d,
                    wb,
                    pos0,
                    w0,
                    old(writer).limit as int,
                )),
                reader.bit_pos() == pos0 ==> writer.spec_written() == old(
                    writer,
                ).spec_written(),
                block_run_fits(d, wb, pos0, w0, old(writer).limit as int) ==> block_run_fits(
                    d,
                    wb,
                    reader.bit_pos(),
                    writer.spec_written(),
                    old(writer).limit as int,
                ),
            decreases 8 * reader.spec_data().len() - reader.bit_pos(),
        {
            let ghost pos_a = reader.bit_pos();
            let ghost w_a = writer.spec_written();
            let ghost brf = block_run_fits(d, wb, pos_a, w_a, old(writer).limit as int);
            let ghost (gp2, gw2): (int, Seq<u8>) = choose|pos2: int, w2: Seq<u8>|
                {
                    &&& #[trigger] block_run(d, wb, pos_a, w_a, pos2, w2)
                    &&& pos2 <= 8 * d.len()
                    &&& w2.len() <= old(writer).limit as int
                };
            let ghost (gmid, gwmid): (int, Seq<u8>) = choose|mid: int, wmid: Seq<u8>|
                {
                    &&& #[trigger] block_body(d, wb, pos_a, w_a, mid, wmid)
                    &&& if bit_at(d, pos_a) == 1 {
                        mid == gp2 && wmid == gw2
                    } else {
                        pos_a < mid < gp2 && block_run(d, wb, mid, wmid, gp2, gw2)
                    }
                };
            proof {
                if brf {
                    assert(block_run(d, wb, pos_a, w_a, gp2, gw2) && gp2 <= 8 * d.len()
                        && gw2.len() <= old(writer).limit as int);
                    assert(block_body(d, wb, pos_a, w_a, gmid, gwmid));
                    if bit_at(d, pos_a) != 1 {
                        lemma_block_run_bounds(d, wb, gmid, gwmid, gp2, gw2);
                    }
                    lemma_block_step_fits(
                        d,
                        wb,
                        pos_a,
                        w_a,
                        gmid,
                        gwmid,
                        old(writer).limit as int,
                    );
                }
            }
            let fin = self.read_block(reader, writer)?;
            proof {
                lemma_prefix_trans(old(writer).spec_written(), w_a, writer.spec_written());
                assert(block_body(d, wb, pos_a, w_a, reader.bit_pos(), writer.spec_written()));
                if brf {
                    lemma_block_body_deterministic(
                        d,
                        wb,
                        pos_a,
                        w_a,
                        reader.bit_pos(),
                        writer.spec_written(),
                        gmid,
                        gwmid,
                    );
                    if !fin {
                        assert(block_run_fits(
                            d,
                            wb,
                            reader.bit_pos(),
                            writer.spec_written(),
                            old(writer).limit as int,
                        ));
                    }
                }
            }
            if fin {
                proof {
                    assert(block_run(
                        d,
                        wb,
                        pos_a,
                        w_a,
                        reader.bit_pos(),
                        writer.spec_written(),
                    ));
                    assert(block_run(d, wb, pos0, w0, reader.bit_pos(), writer.spec_written()));
                }
                return Ok(());
            }
            proof {
                assert forall|p2: int, w2: Seq<u8>|
                    #[trigger] block_run(
                        d,
                        wb,
                        reader.bit_pos(),
                        writer.spec_written(),
                        p2,
                        w2,
                    ) implies block_run(d, wb, pos0, w0, p2, w2) by {
                    assert(block_run(d, wb, pos_a, w_a, p2, w2));
                }
            }
        }
    }
}

/// The index of the first zero byte of `d` at or after `from`, if any.
pub open spec fn nul_after(d: Seq<u8>, from: int) -> Option<int>
    decreases d.len() - from,
{
    if from < 0 || from >= d.len() {
        None
    } else if d[from] == 0 {
        Some(from)
    } else {
        nul_after(d, from + 1)
    }
}

/// What the first-NUL index means: it is a zero byte with no zero byte
/// before it, and `None` means the tail holds no zero byte at all.
pub proof fn lemma_nul_after(d: Seq<u8>, from: int)
    requires
        0 <= from,
    ensures
        match nul_after(d, from) {
            Some(z) => from <= z < d.len() && d[z] == 0 && forall|j: int|
                from <= j < z ==> d[j] != 0,
            None => forall|j: int| from <= j < d.len() ==> d[j] != 0,
        },
    decreases d.len() - from,
{
    if from < d.len() && d[from] != 0 {
        lemma_nul_after(d, from + 1);
    }
}

/// A zero byte with no earlier zero byte is the one `nul_after` finds.
pub proof fn lemma_nul_after_unique(d: Seq<u8>, from: int, z: int)
    requires
        0 <= from <= z < d.len(),
        d[z] == 0,
        forall|j: int| from <= j < z ==> d[j] != 0,
    ensures
        nul_after(d, from) == Some(z),
    decreases z - from,
{
    if from < z {
        lemma_nul_after_unique(d, from + 1, z);
    }
}

/// The byte position just past an optional NUL-terminated text field read
/// from position `q`, or `None` when the field is present but has no
/// terminator or its bytes are not valid UTF-8.
pub open spec fn header_text_end(d: Seq<u8>, q: int, present: bool) -> Option<int> {
    if !present {
        Some(q)
    } else {
        match nul_after(d, q) {
            Some(z) => if vstd::utf8::valid_utf8(d.subrange(q, z)) {
                Some(z + 1)
            } else {
                None
            },
            None => None,
        }
    }
}

/// The byte position just past the optional extra, name and comment fields
/// of a header whose fixed prefix starts at `p0`, or `None` when one of
/// them is incomplete or malformed.
pub open spec fn header_fields_end(d: Seq<u8>, p0: int) -> Option<int> {
    let flg = d[p0 + 3];
    let pe = if flg & 4 == 4 {
        p0 + 12 + le16(d, p0 + 10)
    } else {
        p0 + 10
    };
    if flg & 4 == 4 && !(p0 + 12 <= d.len() && pe <= d.len()) {
        None
    } else {
        match header_text_end(d, pe, flg & 8 == 8) {
            Some(q1) => header_text_end(d, q1, flg & 16 == 16),
            None => None,
        }
    }
}

/// A complete, well-formed member header at byte position `p0`: the fixed
/// prefix passes the magic, method and flag checks, every optional field is
/// complete (name and comment NUL-terminated and valid UTF-8), and, with
/// FHCRC set, the stored CRC16 equals the low half of the CRC-32 of the
/// header bytes before it.
pub open spec fn header_ok(d: Seq<u8>, p0: int) -> bool {
    &&& p0 + 10 <= d.len()
    &&& d[p0] == 0x1f
    &&& d[p0 + 1] == 0x8b
    &&& d[p0 + 2] == 8
    &&& d[p0 + 3] < 32
    &&& match header_fields_end(d, p0) {
        Some(q) => d[p0 + 3] & 2 == 2 ==> q + 2 <= d.len() && le16(d, q) == (
        crate::trusted::crc32_of(d.subrange(p0, q)) & 0xffff) as u16,
        None => false,
    }
}

/// The byte position just past a well-formed header at `p0`.
pub open spec fn header_end(d: Seq<u8>, p0: int) -> int {
    let q = header_fields_end(d, p0).unwrap();
    if d[p0 + 3] & 2 == 2 {
        q + 2
    } else {
        q
    }
}

/// Reads one NUL-terminated UTF-8 text field from byte position `start`,
/// where the reader stands byte-aligned. It succeeds exactly when
/// `header_text_end` accepts the field, and then stops just past the
/// terminator.
fn read_header_text(reader: &mut BitReader, Ghost(start): Ghost<int>) -> (r: Result<String, Error>)
    requires
        old(reader).wf(),
        start >= 0,
        old(reader).bit_pos() == 8 * start,
    ensures
        final(reader).wf(),
        final(reader).spec_data() == old(reader).spec_data(),
        final(reader).bit_pos() >= old(reader).bit_pos(),
        ({
            let d = old(reader).spec_data();
            match r {
                Ok(s) => {
                    &&& header_text_end(d, start, true) == Some(final(reader).bit_pos() / 8)
                    &&& final(reader).bit_pos() % 8 == 0
                    &&& final(reader).bit_pos() == 8 * header_text_end(d, start, true).unwrap()
                    &&& start < final(reader).bit_pos() / 8 <= d.len()
                },
                Err(e) => {
                    &&& (e == Error::UnexpectedEof || e == Error::InvalidData(
                        ErrorKind::HeaderNotUtf8,
                    ))
                    &&& header_text_end(d, start, true) is None
                },
            }
        }),
{
    let ghost d = old(reader).spec_data();
    proof {
        assert((8 * start) / 8 == start && (8 * start) % 8 == 0) by (nonlinear_arith)
            requires
                start >= 0,
        ;
    }
    match reader.read_str_to_null() {
        Ok(v) => {
            proof {
                let m = choose|m: int|
                    {
                        &&& 0 <= m
                        &&& start + m < d.len()
                        &&& #[trigger] d[start + m] == 0
                        &&& (forall|j: int| start <= j < start + m ==> d[j] != 0)
                        &&& vstd::utf8::encode_utf8(v@) == d.subrange(start, start + m)
                        &&& vstd::utf8::valid_utf8(d.subrange(start, start + m))
                        &&& reader.bit_pos() == 8 * (start + m + 1)
                    };
                lemma_nul_after_unique(d, start, start + m);
                assert(header_text_end(d, start, true) == Some(start + m + 1));
                assert((8 * (start + m + 1)) / 8 == start + m + 1 && (8 * (start + m + 1)) % 8
                    == 0) by (nonlinear_arith)
                    requires
                        start + m + 1 >= 0,
                ;
            }
            Ok(v)
        },
        Err(e) => {
            proof {
                lemma_nul_after(d, start);
                if e == Error::InvalidData(ErrorKind::HeaderNotUtf8) {
                    let m = choose|m: int|
                        {
                            &&& 0 <= m
                            &&& start + m < d.len()
                            &&& #[trigger] d[start + m] == 0
                            &&& (forall|j: int| start <= j < start + m ==> d[j] != 0)
                            &&& !vstd::utf8::valid_utf8(d.subrange(start, start + m))
                        };
                    lemma_nul_after_unique(d, start, start + m);
                }
            }
            Err(e)
        },
    }
}

/// Parses one gzip member header (RFC 1952 section 2.3) from a byte-aligned
/// position: fixed prefix with magic, method and flag checks, then the
/// optional extra, name, comment and header-CRC fields. Header text must be
/// UTF-8; anything else is rejected as invalid data. It succeeds exactly on
/// a well-formed complete header and then stops just past it.
#[verifier::loop_isolation(false)]
#[verifier::rlimit(100)]
pub fn parse_header(reader: &mut BitReader) -> (r: Result<(MemberHeader, MemberFlags), Error>)
    requires
        old(reader).wf(),
        old(reader).bit_pos() % 8 == 0,
    ensures
        final(reader).wf(),
        final(reader).spec_data() == old(reader).spec_data(),
        final(reader).bit_pos() >= old(reader).bit_pos(),
        match r {
            Ok((hdr, fl)) => {
                let d = old(reader).spec_data();
                let p0 = old(reader).bit_pos() / 8;
                &&& p0 + 10 <= d.len()
                &&& d[p0] == 0x1f
                &&& d[p0 + 1] == 0x8b
                &&& d[p0 + 2] == 8
                &&& hdr.compression_method == CompressionMethod::Deflate
                &&& d[p0 + 3] < 32
                &&& hdr.is_text == (d[p0 + 3] & 1 == 1)
                &&& hdr.has_crc == (d[p0 + 3] & 2 == 2)
                &&& (hdr.extra is Some) == (d[p0 + 3] & 4 == 4)
                &&& (hdr.name is Some) == (d[p0 + 3] & 8 == 8)
                &&& (hdr.comment is Some) == (d[p0 + 3] & 16 == 16)
                &&& hdr.modification_time == le32(d, p0 + 4)
                &&& hdr.extra_flags == d[p0 + 8]
                &&& hdr.os == d[p0 + 9]
                &&& (hdr.extra matches Some(x) ==> x@ == d.subrange(
                    p0 + 12,
                    p0 + 12 + crate::bit_reader::le16(d, p0 + 10),
                ))
                &&& fl.spec_is_text() == hdr.is_text
                &&& fl.spec_has_crc() == hdr.has_crc
                &&& final(reader).bit_pos() % 8 == 0
                &&& final(reader).bit_pos() >= old(reader).bit_pos() + 80
                &&& (hdr.has_crc ==> {
                    let he = final(reader).bit_pos() / 8;
                    &&& p0 + 10 <= he - 2
                    &&& he <= d.len()
                    &&& le16(d, he - 2) == (crate::trusted::crc32_of(d.subrange(p0, he - 2))
                        & 0xffff) as u16
                })
                &&& header_ok(d, p0)
                &&& final(reader).bit_pos() == 8 * header_end(d, p0)
            },
            Err(e) => {
                let d = old(reader).spec_data();
                let p0 = old(reader).bit_pos() / 8;
                &&& (e == Error::UnexpectedEof || e == Error::InvalidData(ErrorKind::BadMagic)
                    || e == Error::InvalidData(ErrorKind::ReservedFlagBits) || e
                    == Error::InvalidData(ErrorKind::HeaderCrcMismatch) || e
                    == Error::InvalidData(ErrorKind::HeaderNotUtf8) || e == Error::Unsupported(
                    ErrorKind::BadCompressionMethod,
                ))
                &&& (e == Error::InvalidData(ErrorKind::BadMagic) ==> d[p0] != 0x1f || d[p0 + 1]
                    != 0x8b)
                &&& (e == Error::Unsupported(ErrorKind::BadCompressionMethod) ==> d[p0 + 2] != 8)
                &&& (e == Error::InvalidData(ErrorKind::ReservedFlagBits) ==> d[p0 + 3] >= 32)
                &&& (p0 >= d.len() ==> e == Error::UnexpectedEof)
                &&& (p0 < d.len() && d[p0] != 0x1f ==> e == Error::InvalidData(
                    ErrorKind::BadMagic,
                ))
                &&& (p0 + 2 <= d.len() && d[p0] == 0x1f && d[p0 + 1] != 0x8b ==> e
                    == Error::InvalidData(ErrorKind::BadMagic))
                &&& (p0 + 3 <= d.len() && d[p0] == 0x1f && d[p0 + 1] == 0x8b && d[p0 + 2] != 8
                    ==> e == Error::Unsupported(ErrorKind::BadCompressionMethod))
                &&& (p0 + 4 <= d.len() && d[p0] == 0x1f && d[p0 + 1] == 0x8b && d[p0 + 2] == 8
                    && d[p0 + 3] >= 32 ==> e == Error::InvalidData(ErrorKind::ReservedFlagBits))
                &&& (e == Error::InvalidData(ErrorKind::HeaderCrcMismatch) ==> {
                    let he = final(reader).bit_pos() / 8;
                    &&& d[p0 + 3] & 2 == 2
                    &&& final(reader).bit_pos() % 8 == 0
                    &&& p0 <= he - 2
                    &&& he <= d.len()
                    &&& le16(d, he - 2) != (crate::trusted::crc32_of(d.subrange(p0, he - 2))
                        & 0xffff) as u16
                })
                &&& !header_ok(d, p0)
                &&& ((p0 + 10 <= d.len() && d[p0] == 0x1f && d[p0 + 1] == 0x8b && d[p0 + 2] == 8
                    && d[p0 + 3] < 32 && d[p0 + 3] & 2 == 2 && (header_fields_end(d, p0) matches
                Some(q) && q + 2 <= d.len())) ==> e == Error::InvalidData(
                    ErrorKind::HeaderCrcMismatch,
                ))
            },
        },
{
    let ghost d = old(reader).spec_data();
    let ghost p0 = old(reader).bit_pos() / 8;
    proof {
        lemma_aligned(*reader);
    }
    let hstart = reader.stream.pos;
    let id1 = reader.read_bits(8)?;
    proof {
        lemma_bits_value_byte(d, p0);
    }
    if id1.bits() != 0x1f {
        return Err(Error::InvalidData(ErrorKind::BadMagic));
    }
    let id2 = reader.read_bits(8)?;
    proof {
        lemma_bits_value_byte(d, p0 + 1);
        assert(8 * p0 + 8 == 8 * (p0 + 1));
    }
    if id2.bits() != 0x8b {
        return Err(Error::InvalidData(ErrorKind::BadMagic));
    }
    let cm = reader.read_bits(8)?;
    proof {
        lemma_bits_value_byte(d, p0 + 2);
        assert(8 * p0 + 16 == 8 * (p0 + 2));
    }
    if cm.bits() != 8 {
        return Err(Error::Unsupported(ErrorKind::BadCompressionMethod));
    }
    let flg16 = reader.read_bits(8)?;
    proof {
        lemma_bits_value_byte(d, p0 + 3);
        assert(8 * p0 + 24 == 8 * (p0 + 3));
        vstd::arithmetic::power2::lemma2_to64();
    }
    let flg: u8 = flg16.bits() as u8;
    proof {
        assert(flg == d[p0 + 3]);
    }
    if flg >= 32 {
        return Err(Error::InvalidData(ErrorKind::ReservedFlagBits));
    }
    let is_text = flg & 1 == 1;
    let has_crc_flag = flg & 2 == 2;
    let has_extra = flg & 4 == 4;
    let has_name = flg & 8 == 8;
    let has_comment = flg & 16 == 16;
    let mtime = reader.read_u32()?;
    proof {
        lemma_bits_value_le32(d, p0 + 4);
        assert(8 * p0 + 32 == 8 * (p0 + 4));
    }
    let xfl = reader.read_bits(8)?;
    proof {
        lemma_bits_value_byte(d, p0 + 8);
        assert(8 * p0 + 64 == 8 * (p0 + 8));
    }
    let os = reader.read_bits(8)?;
    proof {
        lemma_bits_value_byte(d, p0 + 9);
        assert(8 * p0 + 72 == 8 * (p0 + 9));
        vstd::arithmetic::power2::lemma2_to64();
    }
    let mut out = MemberHeader {
        compression_method: CompressionMethod::of_byte(8),
        modification_time: mtime,
        extra: None,
        name: None,
        comment: None,
        extra_flags: xfl.bits() as u8,
        os: os.bits() as u8,
        has_crc: has_crc_flag,
        is_text,
    };
    if has_extra {
        let xlen = reader.read_bits(16)?;
        proof {
            lemma_bits_value_le16(d, p0 + 10);
            assert(8 * p0 + 80 == 8 * (p0 + 10));
        }
        let count = xlen.bits();
        let mut extra: Vec<u8> = Vec::new();
        let mut i: u16 = 0;
        proof {
            assert(extra@ =~= d.subrange(p0 + 12, p0 + 12));
        }
        while i < count
            invariant
                reader.wf(),
                reader.spec_data() == d,
                reader.bit_pos() >= old(reader).bit_pos() + 80,
                reader.bit_pos() == 8 * (p0 + 12 + i),
                i <= count,
                count == crate::bit_reader::le16(d, p0 + 10),
                extra@ == d.subrange(p0 + 12, p0 + 12 + i),
            decreases count - i,
        {
            let b = reader.read_bits(8)?;
            proof {
                vstd::arithmetic::power2::lemma2_to64();
                lemma_bits_value_byte(d, p0 + 12 + i);
            }
            extra.push(b.bits() as u8);
            i = i + 1;
            proof {
                assert(extra@ =~= d.subrange(p0 + 12, p0 + 12 + i));
            }
        }
        out.extra = Some(extra);
    }
    let ghost pe: int = if has_extra {
        p0 + 12 + le16(d, p0 + 10)
    } else {
        p0 + 10
    };
    proof {
        assert(reader.bit_pos() == 8 * pe);
        assert((8 * pe) / 8 == pe && (8 * pe) % 8 == 0) by (nonlinear_arith)
            requires
                pe >= 0,
        ;
        assert(pe <= d.len());
    }
    if has_name {
        let name = read_header_text(reader, Ghost(pe))?;
        out.name = Some(name);
    }
    let ghost q1: int = if has_name {
        header_text_end(d, pe, true).unwrap()
    } else {
        pe
    };
    proof {
        assert(reader.bit_pos() == 8 * q1);
        assert((8 * q1) / 8 == q1 && (8 * q1) % 8 == 0) by (nonlinear_arith)
            requires
                q1 >= 0,
        ;
        assert(header_text_end(d, pe, has_name) == Some(q1));
    }
    if has_comment {
        let comment = read_header_text(reader, Ghost(q1))?;
        out.comment = Some(comment);
    }
    let ghost qf: int = if has_comment {
        header_text_end(d, q1, true).unwrap()
    } else {
        q1
    };
    proof {
        assert(reader.bit_pos() == 8 * qf);
        assert((8 * qf) / 8 == qf && (8 * qf) % 8 == 0) by (nonlinear_arith)
            requires
                qf >= 0,
        ;
        assert(header_text_end(d, q1, has_comment) == Some(qf));
        assert(header_fields_end(d, p0) == Some(qf));
    }
    if has_crc_flag {
        proof {
            lemma_aligned(*reader);
        }
        let hend = reader.stream.pos;
        let stored = reader.read_bits(16)?;
        proof {
            lemma_bits_value_le16(d, hend as int);
            assert(stored.spec_bits() == le16(d, hend as int));
            lemma_align_of_mul8_pos(reader.bit_pos(), hend as int + 2);
            assert((8 * (hend + 2)) / 8 == hend + 2) by (nonlinear_arith);
            assert(reader.bit_pos() / 8 == hend + 2);
        }
        let header_bytes = vstd::slice::slice_subrange(
            reader.stream.data.as_slice(),
            hstart,
            hend,
        );
        let computed = crc32_checksum(header_bytes);
        proof {
            let c = computed;
            assert(c & 0xffff < 0x10000) by (bit_vector);
            assert(computed == crate::trusted::crc32_of(d.subrange(p0, hend as int)));
        }
        if stored.bits() != (computed & 0xffff) as u16 {
            return Err(Error::InvalidData(ErrorKind::HeaderCrcMismatch));
        }
    }
    let fl = out.flags();
    Ok((out, fl))
}

/// Realigns to the byte boundary and checks the member trailer: the stored
/// CRC-32 must equal the running CRC handed in, and the stored ISIZE the
/// running byte count modulo 2^32.
pub fn parse_footer(reader: &mut BitReader, length: usize, crc_32: u32) -> (r: Result<
    MemberFooter,
    Error,
>)
    requires
        old(reader).wf(),
    ensures
        final(reader).wf(),
        final(reader).spec_data() == old(reader).spec_data(),
        final(reader).bit_pos() >= old(reader).bit_pos(),
        ({
            let d = old(reader).spec_data();
            let q = spec_align_up(old(reader).bit_pos());
            match r {
                Ok(f) => {
                    &&& q + 8 <= d.len()
                    &&& f.data_crc32 == le32(d, q)
                    &&& f.data_size == le32(d, q + 4)
                    &&& f.data_crc32 == crc_32
                    &&& f.data_size as int == length as int % 0x100000000
                    &&& final(reader).bit_pos() == 8 * (q + 8)
                    &&& final(reader).bit_pos() % 8 == 0
                },
                Err(e) => {
                    &&& (e == Error::UnexpectedEof || e == Error::InvalidData(
                        ErrorKind::FooterCrcMismatch,
                    ) || e == Error::InvalidData(ErrorKind::FooterLengthMismatch))
                    &&& (e == Error::UnexpectedEof ==> q + 8 > d.len())
                    &&& (e == Error::InvalidData(ErrorKind::FooterCrcMismatch) ==> q + 4
                        <= d.len() && le32(d, q) != crc_32)
                    &&& (e == Error::InvalidData(ErrorKind::FooterLengthMismatch) ==> q + 8
                        <= d.len() && le32(d, q) == crc_32 && le32(d, q + 4) as int != length as int
                        % 0x100000000)
                },
            }
        }),
        ({
            let d = old(reader).spec_data();
            let q = spec_align_up(old(reader).bit_pos());
            &&& ((q + 4 <= d.len() && le32(d, q) != crc_32) ==> r == Err::<MemberFooter, Error>(
                Error::InvalidData(ErrorKind::FooterCrcMismatch),
            ))
            &&& ((q + 8 <= d.len() && le32(d, q) == crc_32 && le32(d, q + 4) as int != length as int
                % 0x100000000) ==> r == Err::<MemberFooter, Error>(
                Error::InvalidData(ErrorKind::FooterLengthMismatch),
            ))
            &&& ((q + 4 > d.len() || (q + 8 > d.len() && le32(d, q) == crc_32)) ==> r == Err::<
                MemberFooter,
                Error,
            >(Error::UnexpectedEof))
        }),
{
    let ghost d = old(reader).spec_data();
    let ghost q = spec_align_up(old(reader).bit_pos());
    proof {
        let p0 = old(reader).stream.spec_pos();
        let b0 = old(reader).bit as int;
        assert((p0 * 8 + b0) / 8 == p0 && (p0 * 8 + b0) % 8 == b0) by (nonlinear_arith)
            requires
                0 <= b0 < 8,
                p0 >= 0,
        ;
    }
    let inner = reader.borrow_reader_from_boundary();
    let crc_from_footer = match inner.read_u32_le() {
        Ok(v) => v,
        Err(e) => {
            return Err(e);
        },
    };
    if crc_from_footer != crc_32 {
        return Err(Error::InvalidData(ErrorKind::FooterCrcMismatch));
    }
    let length_from_footer = match inner.read_u32_le() {
        Ok(v) => v,
        Err(e) => {
            return Err(e);
        },
    };
    if length_from_footer as u64 != (length as u64) % 0x100000000u64 {
        return Err(Error::InvalidData(ErrorKind::FooterLengthMismatch));
    }
    proof {
        lemma_align_of_mul8_pos(reader.bit_pos(), q + 8);
    }
    Ok(MemberFooter { data_crc32: crc_from_footer, data_size: length_from_footer })
}

/// Helper: a bit position known to be `8 * k` is a multiple of eight.
proof fn lemma_align_of_mul8_pos(p: int, k: int)
    requires
        p == 8 * k,
        k >= 0,
    ensures
        p % 8 == 0,
{
    assert((8 * k) % 8 == 0) by (nonlinear_arith);
}

/// A complete well-formed member header at byte position `p`, with the
/// member's DEFLATE payload starting at the byte position `he` that the
/// header's flag byte and field contents determine.
pub open spec fn header_shape(d: Seq<u8>, p: int, he: int) -> bool {
    &&& p + 10 <= he
    &&& he <= d.len()
    &&& header_ok(d, p)
    &&& he == header_end(d, p)
}

/// A chain of gzip members read from byte position `p` of the input with
/// output `w` so far: each member is a well-formed header, a run of DEFLATE
/// blocks appending that member's bytes over a sliding window that starts
/// fresh at the member boundary, and a trailer holding their CRC-32 and
/// length modulo 2^32; the chain ends exactly at byte position `p2` with
/// output `w2`.
pub open spec fn members_run(d: Seq<u8>, p: int, w: Seq<u8>, p2: int, w2: Seq<u8>) -> bool
    decreases p2 - p,
{
    &&& p < p2
    &&& exists|he: int, bend: int, wm: Seq<u8>|
        {
            &&& header_shape(d, p, he)
            &&& #[trigger] block_run(d, w.len() as int, 8 * he, w, bend, wm)
            &&& spec_align_up(bend) + 8 <= d.len()
            &&& le32(d, spec_align_up(bend)) == crate::trusted::crc32_of(wm.skip(w.len() as int))
            &&& le32(d, spec_align_up(bend) + 4) as int == (wm.len() - w.len()) % 0x100000000
            &&& {
                let np = spec_align_up(bend) + 8;
                if np == p2 {
                    wm == w2
                } else {
                    p < np < p2 && members_run(d, np, wm, p2, w2)
                }
            }
        }
}

/// The input frames one gzip member whose payload is a single final stored
/// block: a well-formed header, the block with a valid complement and its
/// payload inside the input, and exactly eight bytes left for the trailer.
/// Nothing is said yet of the trailer's values.
pub open spec fn single_stored_frame(d: Seq<u8>) -> bool {
    let he = header_end(d, 0);
    let q = spec_align_up(8 * he + 3);
    let fb = q + 4 + le16(d, q);
    &&& header_ok(d, 0)
    &&& final_stored_block_fits(d, 8 * he, 0x10000)
    &&& fb + 8 == d.len()
}

/// Where such a member's trailer starts.
pub open spec fn stored_trailer_at(d: Seq<u8>) -> int {
    let q = spec_align_up(8 * header_end(d, 0) + 3);
    q + 4 + le16(d, q)
}

/// The stored payload of such a member: the block's LEN bytes.
pub open spec fn single_stored_payload(d: Seq<u8>) -> Seq<u8> {
    let q = spec_align_up(8 * header_end(d, 0) + 3);
    d.subrange(q + 4, q + 4 + le16(d, q))
}

/// The whole input is one gzip member whose payload is a single final
/// fixed-Huffman block: a well-formed header, a complete symbol run over
/// the RFC 1951 fixed codes that stays inside the input, and a trailer
/// that carries the run's CRC-32 and length and ends the input exactly.
pub open spec fn single_fixed_member(d: Seq<u8>) -> bool {
    let he = header_end(d, 0);
    &&& header_ok(d, 0)
    &&& 8 * he + 3 <= 8 * d.len()
    &&& bit_at(d, 8 * he) == 1
    &&& spec_block_type(bits_value(d, 8 * he + 1, 2)) == CompressionType::FixedTree
    &&& exists|pos2: int, w2: Seq<u8>|
        {
            &&& #[trigger] symbol_run(
                d,
                map_of(spec_entries::<LitLenToken>(spec_fixed_litlen_lengths(), 288)),
                map_of(spec_entries::<DistanceToken>(spec_fixed_distance_lengths(), 32)),
                0,
                8 * he + 3,
                Seq::empty(),
                pos2,
                w2,
            )
            &&& pos2 <= 8 * d.len()
            &&& w2.len() <= usize::MAX
            &&& spec_align_up(pos2) + 8 == d.len()
            &&& le32(d, spec_align_up(pos2)) == crate::trusted::crc32_of(w2)
            &&& le32(d, spec_align_up(pos2) + 4) as int == w2.len() % 0x100000000
        }
}

/// The whole input is one gzip member whose payload is a single final
/// dynamic-Huffman block: a well-formed header, a well-formed preamble
/// whose decoded tables drive a complete symbol run inside the input, and
/// a trailer that carries the run's CRC-32 and length and ends the input
/// exactly.
pub open spec fn single_dynamic_member(d: Seq<u8>) -> bool {
    let he = header_end(d, 0);
    let p = 8 * he;
    &&& header_ok(d, 0)
    &&& p + 3 <= 8 * d.len()
    &&& bit_at(d, p) == 1
    &&& spec_block_type(bits_value(d, p + 1, 2)) == CompressionType::DynamicTree
    &&& exists|lens: Seq<u8>, dlens: Seq<u8>, pm: int, pos2: int, w2: Seq<u8>|
        {
            let nf = bits_value(d, p + 13, 4) + 4;
            let ml = meta_lens(d, p + 17, nf as int);
            &&& from_lengths_error(ml) is None
            &&& from_lengths_error(lens) is None
            &&& distance_lengths_error(dlens) is None
            &&& lens.len() == bits_value(d, p + 3, 5) + 257
            &&& dlens.len() == bits_value(d, p + 8, 5) + 1
            &&& clen_run(
                d,
                map_of(spec_entries::<TreeCodeToken>(ml, 19)),
                p + 17 + 3 * nf,
                Seq::empty(),
                (lens.len() + dlens.len()) as int,
                pm,
                lens + dlens,
            )
            &&& pm <= 8 * d.len()
            &&& #[trigger] symbol_run(
                d,
                map_of(spec_entries::<LitLenToken>(lens, lens.len() as int)),
                map_of(spec_entries::<DistanceToken>(dlens, dlens.len() as int)),
                0,
                pm,
                Seq::empty(),
                pos2,
                w2,
            )
            &&& pos2 <= 8 * d.len()
            &&& w2.len() <= usize::MAX
            &&& spec_align_up(pos2) + 8 == d.len()
            &&& le32(d, spec_align_up(pos2)) == crate::trusted::crc32_of(w2)
            &&& le32(d, spec_align_up(pos2) + 4) as int == w2.len() % 0x100000000
        }
}

/// Such a member's block is a final dynamic block whose run fits any sink.
proof fn lemma_single_dynamic_fits(d: Seq<u8>)
    requires
        single_dynamic_member(d),
    ensures
        bit_at(d, 8 * header_end(d, 0)) == 1,
        dynamic_block_fits(d, 0, 8 * header_end(d, 0), Seq::empty(), usize::MAX as int),
{
    let p = 8 * header_end(d, 0);
    let (plens, pdlens, ppm, ppos2, pw2): (Seq<u8>, Seq<u8>, int, int, Seq<u8>) = choose|
        lens: Seq<u8>,
        dlens: Seq<u8>,
        pm: int,
        pos2: int,
        w2: Seq<u8>,
    |
        {
            let nf = bits_value(d, p + 13, 4) + 4;
            let ml = meta_lens(d, p + 17, nf as int);
            &&& from_lengths_error(ml) is None
            &&& from_lengths_error(lens) is None
            &&& distance_lengths_error(dlens) is None
            &&& lens.len() == bits_value(d, p + 3, 5) + 257
            &&& dlens.len() == bits_value(d, p + 8, 5) + 1
            &&& clen_run(
                d,
                map_of(spec_entries::<TreeCodeToken>(ml, 19)),
                p + 17 + 3 * nf,
                Seq::empty(),
                (lens.len() + dlens.len()) as int,
                pm,
                lens + dlens,
            )
            &&& pm <= 8 * d.len()
            &&& #[trigger] symbol_run(
                d,
                map_of(spec_entries::<LitLenToken>(lens, lens.len() as int)),
                map_of(spec_entries::<DistanceToken>(dlens, dlens.len() as int)),
                0,
                pm,
                Seq::empty(),
                pos2,
                w2,
            )
            &&& pos2 <= 8 * d.len()
            &&& w2.len() <= usize::MAX
            &&& spec_align_up(pos2) + 8 == d.len()
            &&& le32(d, spec_align_up(pos2)) == crate::trusted::crc32_of(w2)
            &&& le32(d, spec_align_up(pos2) + 4) as int == w2.len() % 0x100000000
        };
    assert(symbol_run_fits(
        d,
        map_of(spec_entries::<LitLenToken>(plens, plens.len() as int)),
        map_of(spec_entries::<DistanceToken>(pdlens, pdlens.len() as int)),
        0,
        ppm,
        Seq::empty(),
        usize::MAX as int,
    ));
}

/// A block run for such a member's payload ends where the member's
/// hypothesized symbol run says, with its output: the preamble decode and
/// the symbol decode are both deterministic over canonical tables.
proof fn lemma_single_dynamic_end(d: Seq<u8>, mhe: int, written: Seq<u8>)
    requires
        single_dynamic_member(d),
        block_run(d, 0, 8 * header_end(d, 0), Seq::empty(), mhe, written),
    ensures
        spec_align_up(mhe) + 8 == d.len(),
        le32(d, spec_align_up(mhe)) == crate::trusted::crc32_of(written),
        le32(d, spec_align_up(mhe) + 4) as int == written.len() % 0x100000000,
{
    let p = 8 * header_end(d, 0);
    let (plens, pdlens, ppm, ppos2, pw2): (Seq<u8>, Seq<u8>, int, int, Seq<u8>) = choose|
        lens: Seq<u8>,
        dlens: Seq<u8>,
        pm: int,
        pos2: int,
        w2: Seq<u8>,
    |
        {
            let nf = bits_value(d, p + 13, 4) + 4;
            let ml = meta_lens(d, p + 17, nf as int);
            &&& from_lengths_error(ml) is None
            &&& from_lengths_error(lens) is None
            &&& distance_lengths_error(dlens) is None
            &&& lens.len() == bits_value(d, p + 3, 5) + 257
            &&& dlens.len() == bits_value(d, p + 8, 5) + 1
            &&& clen_run(
                d,
                map_of(spec_entries::<TreeCodeToken>(ml, 19)),
                p + 17 + 3 * nf,
                Seq::empty(),
                (lens.len() + dlens.len()) as int,
                pm,
                lens + dlens,
            )
            &&& pm <= 8 * d.len()
            &&& #[trigger] symbol_run(
                d,
                map_of(spec_entries::<LitLenToken>(lens, lens.len() as int)),
                map_of(spec_entries::<DistanceToken>(dlens, dlens.len() as int)),
                0,
                pm,
                Seq::empty(),
                pos2,
                w2,
            )
            &&& pos2 <= 8 * d.len()
            &&& w2.len() <= usize::MAX
            &&& spec_align_up(pos2) + 8 == d.len()
            &&& le32(d, spec_align_up(pos2)) == crate::trusted::crc32_of(w2)
            &&& le32(d, spec_align_up(pos2) + 4) as int == w2.len() % 0x100000000
        };
    let (mid, wmid): (int, Seq<u8>) = choose|mid: int, wmid: Seq<u8>|
        {
            &&& #[trigger] block_body(d, 0, p, Seq::empty(), mid, wmid)
            &&& if bit_at(d, p) == 1 {
                mid == mhe && wmid == written
            } else {
                p < mid < mhe && block_run(d, 0, mid, wmid, mhe, written)
            }
        };
    assert(bit_at(d, p) == 1);
    let (lens1, dlens1, pm1): (Seq<u8>, Seq<u8>, int) = choose|
        lens: Seq<u8>,
        dlens: Seq<u8>,
        pm: int,
    |
        {
            let nf = bits_value(d, p + 13, 4) + 4;
            let ml = meta_lens(d, p + 17, nf as int);
            &&& from_lengths_error(ml) is None
            &&& from_lengths_error(lens) is None
            &&& distance_lengths_error(dlens) is None
            &&& lens.len() == bits_value(d, p + 3, 5) + 257
            &&& dlens.len() == bits_value(d, p + 8, 5) + 1
            &&& clen_run(
                d,
                map_of(spec_entries::<TreeCodeToken>(ml, 19)),
                p + 17 + 3 * nf,
                Seq::empty(),
                (lens.len() + dlens.len()) as int,
                pm,
                lens + dlens,
            )
            &&& #[trigger] symbol_run(
                d,
                map_of(spec_entries::<LitLenToken>(lens, lens.len() as int)),
                map_of(spec_entries::<DistanceToken>(dlens, dlens.len() as int)),
                0,
                pm,
                Seq::empty(),
                mhe,
                written,
            )
        };
    let ghost_nf = (bits_value(d, p + 13, 4) + 4) as int;
    let ghost_ml = meta_lens(d, p + 17, ghost_nf);
    crate::bit_reader::lemma_bits_value_bound(d, p + 13, 4);
    vstd::arithmetic::power2::lemma2_to64();
    lemma_meta_lens_len(d, p + 17, ghost_nf);
    lemma_clen_run_deterministic(
        d,
        map_of(spec_entries::<TreeCodeToken>(ghost_ml, 19)),
        p + 17 + 3 * ghost_nf,
        Seq::empty(),
        (lens1.len() + dlens1.len()) as int,
        pm1,
        lens1 + dlens1,
        ppm,
        plens + pdlens,
        ghost_ml,
    );
    assert(pm1 == ppm);
    assert(lens1 =~= (lens1 + dlens1).take(lens1.len() as int));
    assert(plens =~= (plens + pdlens).take(plens.len() as int));
    assert(dlens1 =~= (lens1 + dlens1).skip(lens1.len() as int));
    assert(pdlens =~= (plens + pdlens).skip(plens.len() as int));
    assert(lens1 == plens && dlens1 == pdlens);
    lemma_symbol_run_deterministic(
        d,
        map_of(spec_entries::<LitLenToken>(plens, plens.len() as int)),
        map_of(spec_entries::<DistanceToken>(pdlens, pdlens.len() as int)),
        0,
        ppm,
        Seq::empty(),
        mhe,
        written,
        ppos2,
        pw2,
        plens,
        pdlens,
    );
    assert(mhe == ppos2 && written == pw2);
}

/// The whole input is one gzip member whose payload is a single final
/// stored block and whose trailer carries the payload's CRC-32 and length.
pub open spec fn single_stored_member(d: Seq<u8>) -> bool {
    &&& single_stored_frame(d)
    &&& le32(d, stored_trailer_at(d)) == crate::trusted::crc32_of(single_stored_payload(d))
    &&& le32(d, stored_trailer_at(d) + 4) == le16(
        d,
        spec_align_up(8 * header_end(d, 0) + 3),
    )
}

/// Every member of the input from byte position `p` on is decodable: a
/// well-formed header, a block run for its payload that ends within the
/// input and fits the sink, and a trailer carrying the run's CRC-32 and
/// length; members repeat until the input ends exactly at a trailer.
pub open spec fn members_fit(d: Seq<u8>, p: int, w: Seq<u8>) -> bool
    decreases d.len() - p,
{
    &&& 0 <= p < d.len()
    &&& header_ok(d, p)
    &&& exists|bend: int, wm: Seq<u8>|
        {
            &&& #[trigger] block_run(d, w.len() as int, 8 * header_end(d, p), w, bend, wm)
            &&& bend <= 8 * d.len()
            &&& wm.len() <= usize::MAX
            &&& spec_align_up(bend) + 8 <= d.len()
            &&& spec_align_up(bend) + 8 > p
            &&& le32(d, spec_align_up(bend)) == crate::trusted::crc32_of(
                wm.skip(w.len() as int),
            )
            &&& le32(d, spec_align_up(bend) + 4) as int == (wm.len() - w.len()) % 0x100000000
            &&& ({
                let np = spec_align_up(bend) + 8;
                np == d.len() || members_fit(d, np, wm)
            })
        }
}

/// A decodable member's header is well-formed and its payload's block run
/// fits any sink.
proof fn lemma_member_fits_run(d: Seq<u8>, p: int, w: Seq<u8>)
    requires
        members_fit(d, p, w),
    ensures
        header_ok(d, p),
        block_run_fits(d, w.len() as int, 8 * header_end(d, p), w, usize::MAX as int),
{
    let (bend, wm): (int, Seq<u8>) = choose|bend: int, wm: Seq<u8>|
        {
            &&& #[trigger] block_run(d, w.len() as int, 8 * header_end(d, p), w, bend, wm)
            &&& bend <= 8 * d.len()
            &&& wm.len() <= usize::MAX
            &&& spec_align_up(bend) + 8 <= d.len()
            &&& spec_align_up(bend) + 8 > p
            &&& le32(d, spec_align_up(bend)) == crate::trusted::crc32_of(
                wm.skip(w.len() as int),
            )
            &&& le32(d, spec_align_up(bend) + 4) as int == (wm.len() - w.len()) % 0x100000000
            &&& ({
                let np = spec_align_up(bend) + 8;
                np == d.len() || members_fit(d, np, wm)
            })
        };
    assert(block_run_fits(d, w.len() as int, 8 * header_end(d, p), w, usize::MAX as int));
}

/// The block run a decodable member's payload actually takes is the
/// hypothesized one, so the trailer that follows it matches, and the rest
/// of the input is decodable in turn.
proof fn lemma_member_step(d: Seq<u8>, p: int, w: Seq<u8>, mhe: int, written: Seq<u8>)
    requires
        members_fit(d, p, w),
        block_run(d, w.len() as int, 8 * header_end(d, p), w, mhe, written),
    ensures
        spec_align_up(mhe) + 8 <= d.len(),
        le32(d, spec_align_up(mhe)) == crate::trusted::crc32_of(written.skip(w.len() as int)),
        le32(d, spec_align_up(mhe) + 4) as int == (written.len() - w.len()) % 0x100000000,
        spec_align_up(mhe) + 8 == d.len() || members_fit(
            d,
            spec_align_up(mhe) + 8,
            written,
        ),
{
    let (bend, wm): (int, Seq<u8>) = choose|bend: int, wm: Seq<u8>|
        {
            &&& #[trigger] block_run(d, w.len() as int, 8 * header_end(d, p), w, bend, wm)
            &&& bend <= 8 * d.len()
            &&& wm.len() <= usize::MAX
            &&& spec_align_up(bend) + 8 <= d.len()
            &&& spec_align_up(bend) + 8 > p
            &&& le32(d, spec_align_up(bend)) == crate::trusted::crc32_of(
                wm.skip(w.len() as int),
            )
            &&& le32(d, spec_align_up(bend) + 4) as int == (wm.len() - w.len()) % 0x100000000
            &&& ({
                let np = spec_align_up(bend) + 8;
                np == d.len() || members_fit(d, np, wm)
            })
        };
    crate::deflate::reader::lemma_block_run_deterministic(
        d,
        w.len() as int,
        8 * header_end(d, p),
        w,
        mhe,
        written,
        bend,
        wm,
    );
    assert(mhe == bend && written == wm);
}

/// The final member's mark on input and output: the bytes past some split
/// point `m` of the output were produced by a run of DEFLATE blocks read
/// from the input bits, reaching back no further than `m`, and the input's
/// last eight bytes are a trailer holding exactly that suffix's CRC-32 and
/// its length modulo 2^32.
pub open spec fn trailer_matches(d: Seq<u8>, out: Seq<u8>) -> bool {
    exists|m: int, hs: int, he: int|
        {
            &&& 0 <= m <= out.len()
            &&& #[trigger] block_run(d, m, hs, out.take(m), he, out)
            &&& le32(d, d.len() - 8) == crate::trusted::crc32_of(#[trigger] out.skip(m))
            &&& le32(d, d.len() - 4) as int == (out.len() - m) % 0x100000000
        }
}

/// Drives the whole decode: parses each member's header, runs the DEFLATE
/// decoder over its payload, and checks its trailer; members repeat until
/// the input ends exactly after a valid trailer.
pub struct GzipReader {
    pub reader: BitReader,
    pub decoder: DeflateReader,
}

impl GzipReader {
    pub open spec fn wf(self) -> bool {
        &&& self.reader.wf()
        &&& self.decoder.wf()
        &&& self.reader.bit_pos() == 0
    }

    pub fn new(reader: Vec<u8>) -> (r: GzipReader)
        ensures
            r.wf(),
            r.reader.spec_data() == reader@,
    {
        GzipReader { reader: BitReader::new(reader), decoder: DeflateReader::new() }
    }

    /// Decodes every member of the stream and returns the decompressed
    /// bytes; any structural violation, checksum mismatch or early end of
    /// input aborts the decode with the corresponding error.
    #[verifier::loop_isolation(false)]
    #[verifier::rlimit(100)]
    pub fn decode(self) -> (r: Result<Vec<u8>, Error>)
        requires
            self.wf(),
        ensures
            r is Ok ==> {
                let d = self.reader.spec_data();
                &&& d.len() >= 10
                &&& d[0] == 0x1f
                &&& d[1] == 0x8b
                &&& d[2] == 8
            },
            r matches Ok(out) ==> trailer_matches(self.reader.spec_data(), out@),
            r matches Ok(out) ==> members_run(
                self.reader.spec_data(),
                0,
                Seq::empty(),
                self.reader.spec_data().len() as int,
                out@,
            ),
            ({
                let d = self.reader.spec_data();
                &&& (d.len() == 0 ==> r == Err::<Vec<u8>, Error>(Error::UnexpectedEof))
                &&& (d.len() >= 1 && d[0] != 0x1f ==> r == Err::<Vec<u8>, Error>(
                    Error::InvalidData(ErrorKind::BadMagic),
                ))
                &&& (d.len() >= 2 && d[0] == 0x1f && d[1] != 0x8b ==> r == Err::<Vec<u8>, Error>(
                    Error::InvalidData(ErrorKind::BadMagic),
                ))
                &&& (d.len() >= 3 && d[0] == 0x1f && d[1] == 0x8b && d[2] != 8 ==> r == Err::<
                    Vec<u8>,
                    Error,
                >(Error::Unsupported(ErrorKind::BadCompressionMethod)))
                &&& (d.len() >= 4 && d[0] == 0x1f && d[1] == 0x8b && d[2] == 8 && d[3] >= 32
                    ==> r == Err::<Vec<u8>, Error>(Error::InvalidData(ErrorKind::ReservedFlagBits)))
                &&& (r is Ok ==> header_ok(d, 0))
                &&& ((d.len() >= 10 && d[0] == 0x1f && d[1] == 0x8b && d[2] == 8 && d[3] < 32
                    && d[3] & 2 == 2 && (header_fields_end(d, 0) matches Some(q) && q + 2
                    <= d.len() && le16(d, q) != (crate::trusted::crc32_of(d.subrange(0, q))
                    & 0xffff) as u16)) ==> r == Err::<Vec<u8>, Error>(
                    Error::InvalidData(ErrorKind::HeaderCrcMismatch),
                ))
                &&& (single_stored_member(d) ==> (r matches Ok(out) && out@
                    == single_stored_payload(d)))
                &&& (single_fixed_member(d) ==> r is Ok)
                &&& (single_dynamic_member(d) ==> r is Ok)
                &&& (members_fit(d, 0, Seq::empty()) ==> r is Ok)
                &&& ((single_stored_frame(d) && le32(d, stored_trailer_at(d))
                    != crate::trusted::crc32_of(single_stored_payload(d))) ==> r == Err::<
                    Vec<u8>,
                    Error,
                >(Error::InvalidData(ErrorKind::FooterCrcMismatch)))
                &&& ((single_stored_frame(d) && le32(d, stored_trailer_at(d))
                    == crate::trusted::crc32_of(single_stored_payload(d)) && le32(
                    d,
                    stored_trailer_at(d) + 4,
                ) != le16(d, spec_align_up(8 * header_end(d, 0) + 3))) ==> r == Err::<
                    Vec<u8>,
                    Error,
                >(Error::InvalidData(ErrorKind::FooterLengthMismatch)))
            }),
    {
        let GzipReader { mut reader, mut decoder } = self;
        let ghost d = reader.spec_data();
        let mut writer = TrackingWriter::new();
        loop
            invariant
                reader.wf(),
                reader.spec_data() == d,
                d == self.reader.spec_data(),
                reader.bit_pos() % 8 == 0,
                decoder.wf(),
                writer.wf(),
                writer.member_start == writer.spec_written().len(),
                writer.window_start == writer.member_start,
                writer.limit == usize::MAX,
                reader.bit_pos() == 0 ==> writer.spec_written() == Seq::<u8>::empty(),
                reader.bit_pos() > 0 ==> !single_stored_frame(d),
                reader.bit_pos() > 0 ==> !single_fixed_member(d),
                reader.bit_pos() > 0 ==> !single_dynamic_member(d),
                members_fit(d, 0, Seq::empty()) ==> members_fit(
                    d,
                    reader.bit_pos() / 8,
                    writer.spec_written(),
                ),
                reader.bit_pos() > 0 ==> d.len() >= 10 && d[0] == 0x1f && d[1] == 0x8b && d[2]
                    == 8 && d[3] < 32 && header_ok(d, 0),
                forall|p2: int, w2: Seq<u8>|
                    #[trigger] members_run(
                        d,
                        reader.bit_pos() / 8,
                        writer.spec_written(),
                        p2,
                        w2,
                    ) ==> members_run(d, 0, Seq::empty(), p2, w2),
            decreases 8 * reader.spec_data().len() - reader.bit_pos(),
        {
            let ghost pos_h = reader.bit_pos();
            let header_and_flags = parse_header(&mut reader)?;
            let ghost mhs = reader.bit_pos();
            proof {
                assert(8 * (pos_h / 8) == pos_h && 8 * (mhs / 8) == mhs);
                assert(header_shape(d, pos_h / 8, mhs / 8));
            }
            let ghost w_b = writer.spec_written();
            let header = header_and_flags.0;
            match header.compression_method {
                CompressionMethod::Deflate => {
                    proof {
                        if single_fixed_member(d) && pos_h == 0 {
                            let (gpos2, gw2): (int, Seq<u8>) = choose|pos2: int, w2: Seq<u8>|
                                {
                                    &&& #[trigger] symbol_run(
                                        d,
                                        map_of(
                                            spec_entries::<LitLenToken>(
                                                spec_fixed_litlen_lengths(),
                                                288,
                                            ),
                                        ),
                                        map_of(
                                            spec_entries::<DistanceToken>(
                                                spec_fixed_distance_lengths(),
                                                32,
                                            ),
                                        ),
                                        0,
                                        8 * header_end(d, 0) + 3,
                                        Seq::empty(),
                                        pos2,
                                        w2,
                                    )
                                    &&& pos2 <= 8 * d.len()
                                    &&& w2.len() <= usize::MAX
                                    &&& spec_align_up(pos2) + 8 == d.len()
                                    &&& le32(d, spec_align_up(pos2))
                                        == crate::trusted::crc32_of(w2)
                                    &&& le32(d, spec_align_up(pos2) + 4) as int == w2.len()
                                        % 0x100000000
                                };
                            assert(crate::deflate::reader::symbol_run_fits(
                                d,
                                map_of(
                                    spec_entries::<LitLenToken>(spec_fixed_litlen_lengths(), 288),
                                ),
                                map_of(
                                    spec_entries::<DistanceToken>(
                                        spec_fixed_distance_lengths(),
                                        32,
                                    ),
                                ),
                                0,
                                8 * header_end(d, 0) + 3,
                                Seq::empty(),
                                usize::MAX as int,
                            ));
                            assert(final_fixed_block_fits(
                                d,
                                writer.window_start as int,
                                reader.bit_pos(),
                                writer.spec_written(),
                                writer.limit as int,
                            ));
                        }
                        if single_dynamic_member(d) && pos_h == 0 {
                            lemma_single_dynamic_fits(d);
                            assert(dynamic_block_fits(
                                d,
                                writer.window_start as int,
                                reader.bit_pos(),
                                writer.spec_written(),
                                writer.limit as int,
                            ));
                        }
                        if members_fit(d, 0, Seq::empty()) {
                            lemma_member_fits_run(d, pos_h / 8, w_b);
                            assert(block_run_fits(
                                d,
                                writer.window_start as int,
                                reader.bit_pos(),
                                writer.spec_written(),
                                writer.limit as int,
                            ));
                        }
                    }
                    decoder.decode(&mut reader, &mut writer)?;
                },
                CompressionMethod::Unknown(_) => {
                    return Err(Error::Unsupported(ErrorKind::BadCompressionMethod));
                },
            }
            let ghost mhe = reader.bit_pos();
            proof {
                assert(block_run(d, w_b.len() as int, mhs, w_b, mhe, writer.spec_written()));
                if single_stored_frame(d) && pos_h == 0 {
                    // a single final stored block pins where the run ends
                    // and what it wrote
                    let q = spec_align_up(8 * header_end(d, 0) + 3);
                    assert(mhs == 8 * header_end(d, 0));
                    let (mid, wmid): (int, Seq<u8>) = choose|mid: int, wmid: Seq<u8>|
                        {
                            &&& #[trigger] block_body(d, w_b.len() as int, mhs, w_b, mid, wmid)
                            &&& if bit_at(d, mhs) == 1 {
                                mid == mhe && wmid == writer.spec_written()
                            } else {
                                mhs < mid < mhe && block_run(
                                    d,
                                    w_b.len() as int,
                                    mid,
                                    wmid,
                                    mhe,
                                    writer.spec_written(),
                                )
                            }
                        };
                    assert(bit_at(d, mhs) == 1);
                    assert(mhe == 8 * (q + 4 + le16(d, q)));
                    assert(writer.spec_written() == w_b + single_stored_payload(d));
                    assert(writer.spec_written() =~= single_stored_payload(d));
                }
                if single_fixed_member(d) && pos_h == 0 {
                    // the block run is one final fixed block; its symbol run
                    // is deterministic, so it ends where the hypothesis says
                    let (mid, wmid): (int, Seq<u8>) = choose|mid: int, wmid: Seq<u8>|
                        {
                            &&& #[trigger] block_body(d, w_b.len() as int, mhs, w_b, mid, wmid)
                            &&& if bit_at(d, mhs) == 1 {
                                mid == mhe && wmid == writer.spec_written()
                            } else {
                                mhs < mid < mhe && block_run(
                                    d,
                                    w_b.len() as int,
                                    mid,
                                    wmid,
                                    mhe,
                                    writer.spec_written(),
                                )
                            }
                        };
                    assert(bit_at(d, mhs) == 1);
                    assert(w_b =~= Seq::<u8>::empty());
                    assert(symbol_run(
                        d,
                        map_of(spec_entries::<LitLenToken>(spec_fixed_litlen_lengths(), 288)),
                        map_of(spec_entries::<DistanceToken>(spec_fixed_distance_lengths(), 32)),
                        0,
                        mhs + 3,
                        Seq::empty(),
                        mhe,
                        writer.spec_written(),
                    ));
                    let (gpos2, gw2): (int, Seq<u8>) = choose|pos2: int, w2: Seq<u8>|
                        {
                            &&& #[trigger] symbol_run(
                                d,
                                map_of(
                                    spec_entries::<LitLenToken>(spec_fixed_litlen_lengths(), 288),
                                ),
                                map_of(
                                    spec_entries::<DistanceToken>(
                                        spec_fixed_distance_lengths(),
                                        32,
                                    ),
                                ),
                                0,
                                8 * header_end(d, 0) + 3,
                                Seq::empty(),
                                pos2,
                                w2,
                            )
                            &&& pos2 <= 8 * d.len()
                            &&& w2.len() <= usize::MAX
                            &&& spec_align_up(pos2) + 8 == d.len()
                            &&& le32(d, spec_align_up(pos2)) == crate::trusted::crc32_of(w2)
                            &&& le32(d, spec_align_up(pos2) + 4) as int == w2.len() % 0x100000000
                        };
                    lemma_fixed_tables_accepted();
                    lemma_symbol_run_deterministic(
                        d,
                        map_of(spec_entries::<LitLenToken>(spec_fixed_litlen_lengths(), 288)),
                        map_of(spec_entries::<DistanceToken>(spec_fixed_distance_lengths(), 32)),
                        0,
                        mhs + 3,
                        Seq::empty(),
                        mhe,
                        writer.spec_written(),
                        gpos2,
                        gw2,
                        spec_fixed_litlen_lengths(),
                        spec_fixed_distance_lengths(),
                    );
                    assert(mhe == gpos2 && writer.spec_written() == gw2);
                }
                if single_dynamic_member(d) && pos_h == 0 {
                    assert(w_b =~= Seq::<u8>::empty());
                    assert(block_run(
                        d,
                        0,
                        8 * header_end(d, 0),
                        Seq::empty(),
                        mhe,
                        writer.spec_written(),
                    ));
                    lemma_single_dynamic_end(d, mhe, writer.spec_written());
                }
                if members_fit(d, 0, Seq::empty()) {
                    lemma_member_step(d, pos_h / 8, w_b, mhe, writer.spec_written());
                }
            }
            let count = writer.byte_count();
            let crc = writer.crc32();
            let ghost q = spec_align_up(reader.bit_pos());
            proof {
                if single_stored_frame(d) && pos_h == 0 {
                    let qs = spec_align_up(8 * header_end(d, 0) + 3);
                    let fb = qs + 4 + le16(d, qs);
                    assert((8 * fb) % 8 == 0 && (8 * fb) / 8 == fb) by (nonlinear_arith)
                        requires
                            fb >= 0,
                    ;
                    assert(q == fb);
                    assert(writer.member_start == 0);
                    assert(writer.member_bytes() =~= writer.spec_written());
                    assert(crc == crate::trusted::crc32_of(single_stored_payload(d)));
                    assert(count == le16(d, qs));
                }
                if single_fixed_member(d) && pos_h == 0 {
                    let (gpos2, gw2): (int, Seq<u8>) = choose|pos2: int, w2: Seq<u8>|
                        {
                            &&& #[trigger] symbol_run(
                                d,
                                map_of(
                                    spec_entries::<LitLenToken>(spec_fixed_litlen_lengths(), 288),
                                ),
                                map_of(
                                    spec_entries::<DistanceToken>(
                                        spec_fixed_distance_lengths(),
                                        32,
                                    ),
                                ),
                                0,
                                8 * header_end(d, 0) + 3,
                                Seq::empty(),
                                pos2,
                                w2,
                            )
                            &&& pos2 <= 8 * d.len()
                            &&& w2.len() <= usize::MAX
                            &&& spec_align_up(pos2) + 8 == d.len()
                            &&& le32(d, spec_align_up(pos2)) == crate::trusted::crc32_of(w2)
                            &&& le32(d, spec_align_up(pos2) + 4) as int == w2.len() % 0x100000000
                        };
                    assert(q == spec_align_up(gpos2));
                    assert(writer.member_start == 0);
                    assert(writer.member_bytes() =~= writer.spec_written());
                    assert(crc == crate::trusted::crc32_of(gw2));
                    assert(count == gw2.len());
                }
                if single_dynamic_member(d) && pos_h == 0 {
                    assert(q == spec_align_up(mhe));
                    assert(writer.member_start == 0);
                    assert(writer.member_bytes() =~= writer.spec_written());
                    assert(crc == crate::trusted::crc32_of(writer.spec_written()));
                    assert(count == writer.spec_written().len());
                }
                if members_fit(d, 0, Seq::empty()) {
                    assert(q == spec_align_up(mhe));
                    assert(writer.member_start == w_b.len());
                    assert(writer.member_bytes() == writer.spec_written().skip(
                        w_b.len() as int,
                    ));
                    assert(crc == crate::trusted::crc32_of(writer.spec_written().skip(
                        w_b.len() as int,
                    )));
                    assert(count == writer.spec_written().len() - w_b.len());
                }
            }
            let footer = parse_footer(&mut reader, count, crc)?;
            proof {
                assert(reader.bit_pos() == 8 * (q + 8));
                assert((8 * (q + 8)) / 8 == q + 8) by (nonlinear_arith);
                lemma_aligned(reader);
                assert(reader.stream.spec_pos() == q + 8);
            }
            let remaining = {
                let inner = reader.borrow_reader_from_boundary();
                inner.remaining()
            };
            if remaining == 0 {
                let ghost wsnap = writer;
                let out = writer.into_output();
                proof {
                    assert(block_run(d, w_b.len() as int, 8 * (mhs / 8), w_b, mhe, out@));
                    assert(members_run(d, pos_h / 8, w_b, d.len() as int, out@)) by {
                        assert(header_shape(d, pos_h / 8, mhs / 8) && block_run(
                            d,
                            w_b.len() as int,
                            8 * (mhs / 8),
                            w_b,
                            mhe,
                            out@,
                        ) && spec_align_up(mhe) + 8 <= d.len() && le32(d, spec_align_up(mhe))
                            == crate::trusted::crc32_of(out@.skip(w_b.len() as int)) && le32(
                            d,
                            spec_align_up(mhe) + 4,
                        ) as int == (out@.len() - w_b.len()) % 0x100000000 && spec_align_up(mhe)
                            + 8 == d.len());
                    }
                    assert(members_run(d, 0, Seq::empty(), d.len() as int, out@));
                    let m = wsnap.member_start as int;
                    assert(out@.skip(m) == wsnap.member_bytes());
                    assert(out@.take(m) =~= w_b);
                    assert(trailer_matches(d, out@)) by {
                        assert(0 <= m <= out@.len() && #[trigger] block_run(
                            d,
                            m,
                            mhs,
                            out@.take(m),
                            mhe,
                            out@,
                        ) && le32(d, d.len() - 8) == crate::trusted::crc32_of(
                            #[trigger] out@.skip(m),
                        ) && le32(d, d.len() - 4) as int == (out@.len() - m) % 0x100000000);
                    }
                }
                return Ok(out);
            }
            proof {
                assert(block_run(
                    d,
                    w_b.len() as int,
                    8 * (mhs / 8),
                    w_b,
                    mhe,
                    writer.spec_written(),
                ));
            }
            writer.start_member();
            proof {
                assert(8 * ((q + 8)) == reader.bit_pos() && reader.bit_pos() / 8 == q + 8) by {
                    assert((8 * (q + 8)) / 8 == q + 8) by (nonlinear_arith);
                }
                assert forall|p2: int, w2: Seq<u8>|
                    #[trigger] members_run(
                        d,
                        reader.bit_pos() / 8,
                        writer.spec_written(),
                        p2,
                        w2,
                    ) implies members_run(d, 0, Seq::empty(), p2, w2) by {
                    assert(members_run(d, pos_h / 8, w_b, p2, w2)) by {
                        assert(header_shape(d, pos_h / 8, mhs / 8) && block_run(
                            d,
                            w_b.len() as int,
                            8 * (mhs / 8),
                            w_b,
                            mhe,
                            writer.spec_written(),
                        ) && spec_align_up(mhe) + 8 <= d.len() && le32(d, spec_align_up(mhe))
                            == crate::trusted::crc32_of(
                            writer.spec_written().skip(w_b.len() as int),
                        ) && le32(d, spec_align_up(mhe) + 4) as int == (
                        writer.spec_written().len() - w_b.len()) % 0x100000000);
                    }
                }
            }
        }
    }
}

} // verus!
