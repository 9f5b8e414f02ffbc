use vstd::prelude::*;
use vstd::arithmetic::power2::pow2;

use crate::bit_reader::{bit_at, bits_value, BitReader, BitSequence};
use crate::deflate::huffman_coding::{
    clen_fits, clen_run, code_key, decode_litlen_distance_trees, distance_lengths_error,
    from_lengths_error, kraft_sum, kraft_term, lemma_clen_run_bounds,
    lemma_clen_run_deterministic, lemma_meta_lens_len, lengths_error, map_of, meta_lens,
    preamble_fits, spec_entries, CodeSymbol, DistanceToken, HuffmanCoding, LitLenToken,
    TreeCodeToken,
};
use crate::bit_reader::{le16, lemma_bits_value_byte, spec_align_up};
use crate::deflate::tracking_writer::{
    expand_back_reference, is_prefix_of, lemma_append_prefix, lemma_expand_back_reference_len,
    lemma_expand_back_reference_prefix, lemma_prefix_trans, TrackingWriter,
};
use crate::{Error, ErrorKind};

verus! {

/// The three-bit header of a DEFLATE block.
#[derive(Clone, Copy, Debug, PartialEq, Eq, Structural)]
pub struct BlockHeader {
    pub is_final: bool,
    pub compression_type: CompressionType,
}

/// The two-bit block type; `Reserved` is a hard error.
#[derive(Clone, Copy, Debug, PartialEq, Eq, Structural)]
pub enum CompressionType {
    Uncompressed,
    FixedTree,
    DynamicTree,
    Reserved,
}

/// The fixed literal/length code lengths of RFC 1951 section 3.2.6.
pub open spec fn spec_fixed_litlen_lengths() -> Seq<u8> {
    Seq::new(288, |i: int| if i < 144 {
        8u8
    } else if i < 256 {
        9u8
    } else if i < 280 {
        7u8
    } else {
        8u8
    })
}

/// The fixed distance code lengths: 32 codes of 5 bits.
pub open spec fn spec_fixed_distance_lengths() -> Seq<u8> {
    Seq::new(32, |i: int| 5u8)
}

/// The Kraft sum over a constant segment of code lengths grows by one
/// weight per symbol.
proof fn lemma_kraft_segment(lengths: Seq<u8>, a: int, b: int, v: u8)
    requires
        0 <= a <= b,
        forall|i: int| a <= i < b ==> lengths[i] == v,
    ensures
        kraft_sum(lengths, b) == kraft_sum(lengths, a) + (b - a) * kraft_term(v as int),
    decreases b - a,
{
    if a < b {
        lemma_kraft_segment(lengths, a, b - 1, v);
        assert((b - a) * kraft_term(v as int) == (b - 1 - a) * kraft_term(v as int) + kraft_term(
            v as int,
        )) by (nonlinear_arith);
    } else {
        assert((b - a) * kraft_term(v as int) == 0) by (nonlinear_arith)
            requires
                a == b,
        ;
    }
}

/// The RFC 1951 fixed tables fill the code space exactly, so canonical
/// construction accepts them.
pub proof fn lemma_fixed_tables_accepted()
    ensures
        lengths_error(spec_fixed_litlen_lengths(), false) is None,
        lengths_error(spec_fixed_distance_lengths(), false) is None,
        lengths_error(spec_fixed_litlen_lengths(), true) is None,
        lengths_error(spec_fixed_distance_lengths(), true) is None,
{
    let l = spec_fixed_litlen_lengths();
    let ds = spec_fixed_distance_lengths();
    vstd::arithmetic::power2::lemma2_to64();
    assert(forall|i: int| 0 <= i < l.len() ==> l[i] <= 15);
    assert(forall|i: int| 0 <= i < ds.len() ==> ds[i] <= 15);
    lemma_kraft_segment(l, 0, 144, 8);
    lemma_kraft_segment(l, 144, 256, 9);
    lemma_kraft_segment(l, 256, 280, 7);
    lemma_kraft_segment(l, 280, 288, 8);
    assert(kraft_sum(l, 288) == 144 * 128 + 112 * 64 + 24 * 256 + 8 * 128);
    assert(kraft_sum(l, 288) == pow2(15));
    lemma_kraft_segment(ds, 0, 32, 5);
    assert(kraft_sum(ds, 32) == 32 * 1024);
    assert(kraft_sum(ds, 32) == pow2(15));
}

/// Reads successive DEFLATE blocks, dispatching on the block header, and
/// feeds the tracking writer.
pub struct DeflateReader {
    pub fixed_tree: Vec<u8>,
    pub distance_tree: Vec<u8>,
}

impl DeflateReader {
    pub open spec fn wf(self) -> bool {
        &&& self.fixed_tree@ == spec_fixed_litlen_lengths()
        &&& self.distance_tree@ == spec_fixed_distance_lengths()
    }

    pub fn new() -> (r: DeflateReader)
        ensures
            r.wf(),
    {
        let mut len_vec: Vec<u8> = Vec::new();
        while len_vec.len() < 144
            invariant
                len_vec.len() <= 144,
                forall|i: int| 0 <= i < len_vec.len() ==> len_vec@[i] == 8u8,
            decreases 144 - len_vec.len(),
        {
            len_vec.push(8);
        }
        while len_vec.len() < 256
            invariant
                144 <= len_vec.len() <= 256,
                forall|i: int| 0 <= i < 144 ==> len_vec@[i] == 8u8,
                forall|i: int| 144 <= i < len_vec.len() ==> len_vec@[i] == 9u8,
            decreases 256 - len_vec.len(),
        {
            len_vec.push(9);
        }
        while len_vec.len() < 280
            invariant
                256 <= len_vec.len() <= 280,
                forall|i: int| 0 <= i < 144 ==> len_vec@[i] == 8u8,
                forall|i: int| 144 <= i < 256 ==> len_vec@[i] == 9u8,
                forall|i: int| 256 <= i < len_vec.len() ==> len_vec@[i] == 7u8,
            decreases 280 - len_vec.len(),
        {
            len_vec.push(7);
        }
        while len_vec.len() < 288
            invariant
                280 <= len_vec.len() <= 288,
                forall|i: int| 0 <= i < 144 ==> len_vec@[i] == 8u8,
                forall|i: int| 144 <= i < 256 ==> len_vec@[i] == 9u8,
                forall|i: int| 256 <= i < 280 ==> len_vec@[i] == 7u8,
                forall|i: int| 280 <= i < len_vec.len() ==> len_vec@[i] == 8u8,
            decreases 288 - len_vec.len(),
        {
            len_vec.push(8);
        }
        let mut dist_vec: Vec<u8> = Vec::new();
        while dist_vec.len() < 32
            invariant
                dist_vec.len() <= 32,
                forall|i: int| 0 <= i < dist_vec.len() ==> dist_vec@[i] == 5u8,
            decreases 32 - dist_vec.len(),
        {
            dist_vec.push(5);
        }
        proof {
            assert(len_vec@ =~= spec_fixed_litlen_lengths());
            assert(dist_vec@ =~= spec_fixed_distance_lengths());
        }
        DeflateReader { fixed_tree: len_vec, distance_tree: dist_vec }
    }

    /// Reads the three-bit block header: the final-block flag, then the
    /// two-bit block type, LSB-first.
    fn next_block(&mut self, bit_reader: &mut BitReader) -> (r: Result<BlockHeader, Error>)
        requires
            old(bit_reader).wf(),
        ensures
            *final(self) == *old(self),
            final(bit_reader).wf(),
            final(bit_reader).spec_data() == old(bit_reader).spec_data(),
            final(bit_reader).bit_pos() >= old(bit_reader).bit_pos(),
            match r {
                Ok(h) => {
                    let d = old(bit_reader).spec_data();
                    let p = old(bit_reader).bit_pos();
                    &&& p + 3 <= old(bit_reader).total_bits()
                    &&& final(bit_reader).bit_pos() == p + 3
                    &&& h.is_final == (bit_at(d, p) == 1)
                    &&& h.compression_type == spec_block_type(bits_value(d, p + 1, 2))
                },
                Err(e) => e == Error::UnexpectedEof && old(bit_reader).bit_pos() + 3 > old(
                    bit_reader,
                ).total_bits(),
            },
    {
        proof {
            vstd::arithmetic::power2::lemma2_to64();
        }
        let fin = bit_reader.read_bits(1)?;
        let ty = bit_reader.read_bits(2)?;
        proof {
            assert(bits_value(
                old(bit_reader).spec_data(),
                old(bit_reader).bit_pos() + 1,
                0,
            ) == 0);
        }
        let is_final = fin.bits() == 1;
        let compression_type = match ty.bits() {
            0 => CompressionType::Uncompressed,
            1 => CompressionType::FixedTree,
            2 => CompressionType::DynamicTree,
            _ => CompressionType::Reserved,
        };
        proof {
            assert(fin.spec_bits() == bit_at(
                old(bit_reader).spec_data(),
                old(bit_reader).bit_pos(),
            ) as u16);
        }
        Ok(BlockHeader { is_final, compression_type })
    }

    /// Reads one whole block. Returns the final-block flag; a reserved
    /// block type, a bad stored-length complement and every structural
    /// failure below abort the decode.
    pub fn read_block(&mut self, bit_reader: &mut BitReader, writer: &mut TrackingWriter) -> (r:
        Result<bool, Error>)
        requires
            old(self).wf(),
            old(bit_reader).wf(),
            old(writer).wf(),
        ensures
            final(self).wf(),
            final(bit_reader).wf(),
            final(bit_reader).spec_data() == old(bit_reader).spec_data(),
            final(bit_reader).bit_pos() >= old(bit_reader).bit_pos(),
            final(writer).wf(),
            final(writer).limit == old(writer).limit,
            final(writer).member_start == old(writer).member_start,
            final(writer).window_start == old(writer).window_start,
            is_prefix_of(old(writer).spec_written(), final(writer).spec_written()),
            match r {
                Ok(fin) => {
                    let d = old(bit_reader).spec_data();
                    let p = old(bit_reader).bit_pos();
                    &&& final(bit_reader).bit_pos() > p
                    &&& fin == (bit_at(d, p) == 1)
                    &&& spec_block_type(bits_value(d, p + 1, 2)) != CompressionType::Reserved
                    &&& (spec_block_type(bits_value(d, p + 1, 2))
                        == CompressionType::Uncompressed ==> {
                        let q = spec_align_up(p + 3);
                        &&& final(writer).spec_written() == old(writer).spec_written()
                            + d.subrange(q + 4, q + 4 + le16(d, q))
                        &&& final(bit_reader).bit_pos() == 8 * (q + 4 + le16(d, q))
                        &&& le16(d, q + 2) == (le16(d, q) ^ 0xFFFFu16)
                    })
                    &&& (spec_block_type(bits_value(d, p + 1, 2)) == CompressionType::FixedTree
                        ==> symbol_run(
                        d,
                        map_of(spec_entries::<LitLenToken>(spec_fixed_litlen_lengths(), 288)),
                        map_of(
                            spec_entries::<DistanceToken>(spec_fixed_distance_lengths(), 32),
                        ),
                        old(writer).window_start as int,
                        p + 3,
                        old(writer).spec_written(),
                        final(bit_reader).bit_pos(),
                        final(writer).spec_written(),
                    ))
                    &&& (spec_block_type(bits_value(d, p + 1, 2)) == CompressionType::DynamicTree
                        ==> exists|lens: Seq<u8>, dlens: Seq<u8>, pm: int|
                        {
                            let nf = bits_value(d, p + 13, 4) + 4;
                            let ml = meta_lens(d, p + 17, nf as int);
                            &&& from_lengths_error(ml) is None
                            &&& from_lengths_error(lens) is None
                            &&& distance_lengths_error(dlens) is None
                            &&& lens.len() == bits_value(d, p + 3, 5) + 257
                            &&& dlens.len() == bits_value(d, p + 8, 5) + 1
                            &&& clen_run(
                                d,
                                map_of(spec_entries::<TreeCodeToken>(ml, 19)),
                                p + 17 + 3 * nf,
                                Seq::empty(),
                                (lens.len() + dlens.len()) as int,
                                pm,
                                lens + dlens,
                            )
                            &&& #[trigger] symbol_run(
                                d,
                                map_of(spec_entries::<LitLenToken>(lens, lens.len() as int)),
                                map_of(
                                    spec_entries::<DistanceToken>(dlens, dlens.len() as int),
                                ),
                                old(writer).window_start as int,
                                pm,
                                old(writer).spec_written(),
                                final(bit_reader).bit_pos(),
                                final(writer).spec_written(),
                            )
                        })
                },
                Err(e) => {
                    let d = old(bit_reader).spec_data();
                    let p = old(bit_reader).bit_pos();
                    &&& (e == Error::InvalidData(ErrorKind::ReservedBlockType) <==> (p + 3 <= old(
                        bit_reader,
                    ).total_bits() && spec_block_type(bits_value(d, p + 1, 2))
                        == CompressionType::Reserved))
                    &&& (e == Error::InvalidData(ErrorKind::StoredLengthMismatch) ==> {
                        let q = spec_align_up(p + 3);
                        &&& spec_block_type(bits_value(d, p + 1, 2))
                            == CompressionType::Uncompressed
                        &&& q + 4 <= d.len()
                        &&& le16(d, q + 2) != (le16(d, q) ^ 0xFFFFu16)
                    })
                },
            },
        ({
            let d = old(bit_reader).spec_data();
            let p = old(bit_reader).bit_pos();
            let q = spec_align_up(p + 3);
            (p + 3 <= old(bit_reader).total_bits() && spec_block_type(bits_value(d, p + 1, 2))
                == CompressionType::Uncompressed && q + 4 <= d.len() && le16(d, q + 2) != (le16(
                d,
                q,
            ) ^ 0xFFFFu16)) ==> r == Err::<bool, Error>(
                Error::InvalidData(ErrorKind::StoredLengthMismatch),
            )
        }),
        ({
            let d = old(bit_reader).spec_data();
            let p = old(bit_reader).bit_pos();
            let q = spec_align_up(p + 3);
            (p + 3 <= old(bit_reader).total_bits() && spec_block_type(bits_value(d, p + 1, 2))
                == CompressionType::Uncompressed && q + 4 + le16(d, q) <= d.len() && le16(d, q + 2)
                == (le16(d, q) ^ 0xFFFFu16) && le16(d, q) <= old(writer).limit - old(
                writer,
            ).spec_written().len()) ==> r is Ok
        }),
        ({
            let d = old(bit_reader).spec_data();
            let p = old(bit_reader).bit_pos();
            (p + 3 <= old(bit_reader).total_bits() && spec_block_type(bits_value(d, p + 1, 2))
                == CompressionType::FixedTree && symbol_run_fits(
                d,
                map_of(spec_entries::<LitLenToken>(spec_fixed_litlen_lengths(), 288)),
                map_of(spec_entries::<DistanceToken>(spec_fixed_distance_lengths(), 32)),
                old(writer).window_start as int,
                p + 3,
                old(writer).spec_written(),
                old(writer).limit as int,
            )) ==> r is Ok
        }),
        dynamic_block_fits(
            old(bit_reader).spec_data(),
            old(writer).window_start as int,
            old(bit_reader).bit_pos(),
            old(writer).spec_written(),
            old(writer).limit as int,
        ) ==> r is Ok,
    {
        let ghost d = old(bit_reader).spec_data();
        let ghost p_start = old(bit_reader).bit_pos();
        let header = self.next_block(bit_reader)?;
        match header.compression_type {
            CompressionType::Uncompressed => {
                let ghost q = spec_align_up(p_start + 3);
                proof {
                    let p0 = bit_reader.stream.spec_pos();
                    let b0 = bit_reader.bit as int;
                    assert((p0 * 8 + b0) / 8 == p0 && (p0 * 8 + b0) % 8 == b0)
                        by (nonlinear_arith)
                        requires
                            0 <= b0 < 8,
                            p0 >= 0,
                    ;
                }
                let len: u16;
                let nlen: u16;
                {
                    let inner = bit_reader.borrow_reader_from_boundary();
                    len = inner.read_u16_le()?;
                    nlen = inner.read_u16_le()?;
                }
                if len ^ 0xFFFF != nlen {
                    return Err(Error::InvalidData(ErrorKind::StoredLengthMismatch));
                }
                proof {
                    assert(len == le16(d, q));
                    assert(bit_reader.bit_pos() == 8 * (q + 4));
                    assert(writer.spec_written() =~= old(writer).spec_written() + d.subrange(
                        q + 4,
                        q + 4,
                    ));
                }
                let mut i: u16 = 0;
                while i < len
                    invariant
                        *self == *old(self),
                        old(self).wf(),
                        i <= len,
                        bit_reader.wf(),
                        bit_reader.spec_data() == d,
                        d == old(bit_reader).spec_data(),
                        q == spec_align_up(old(bit_reader).bit_pos() + 3),
                        len == le16(d, q),
                        spec_block_type(bits_value(d, old(bit_reader).bit_pos() + 1, 2))
                            == CompressionType::Uncompressed,
                        le16(d, q + 2) == (le16(d, q) ^ 0xFFFFu16),
                        bit_reader.bit_pos() == 8 * (q + 4 + i),
                        bit_reader.bit_pos() > old(bit_reader).bit_pos(),
                        writer.wf(),
                        writer.limit == old(writer).limit,
                        writer.member_start == old(writer).member_start,
                        writer.window_start == old(writer).window_start,
                        writer.spec_written() == old(writer).spec_written() + d.subrange(
                            q + 4,
                            q + 4 + i,
                        ),
                    decreases len - i,
                {
                    proof {
                        lemma_append_prefix(
                            old(writer).spec_written(),
                            d.subrange(q + 4, q + 4 + i),
                        );
                    }
                    let b = bit_reader.read_bits(8)?;
                    proof {
                        vstd::arithmetic::power2::lemma2_to64();
                        assert(8 * (q + 4 + i) == 8 * (q + 4 + i));
                        lemma_bits_value_byte(d, q + 4 + i);
                        assert(b.spec_bits() == d[q + 4 + i]);
                    }
                    writer.write_u8(b.bits() as u8)?;
                    i = i + 1;
                    proof {
                        assert(writer.spec_written() =~= old(writer).spec_written() + d.subrange(
                            q + 4,
                            q + 4 + i,
                        ));
                    }
                }
                proof {
                    assert(bit_reader.bit_pos() > old(bit_reader).bit_pos());
                    lemma_append_prefix(
                        old(writer).spec_written(),
                        d.subrange(q + 4, q + 4 + len),
                    );
                }
                Ok(header.is_final)
            },
            CompressionType::FixedTree => {
                proof {
                    lemma_fixed_tables_accepted();
                }
                let lit = HuffmanCoding::<LitLenToken>::from_lengths(
                    self.fixed_tree.as_slice(),
                )?;
                let dist = HuffmanCoding::<DistanceToken>::from_lengths(
                    self.distance_tree.as_slice(),
                )?;
                proof {
                    assert(lit.spec_map() == map_of(
                        spec_entries::<LitLenToken>(spec_fixed_litlen_lengths(), 288),
                    ));
                    assert(dist.spec_map() == map_of(
                        spec_entries::<DistanceToken>(spec_fixed_distance_lengths(), 32),
                    ));
                }
                self.read_compressed(bit_reader, writer, lit, dist)?;
                proof {
                    assert(bit_reader.bit_pos() > old(bit_reader).bit_pos());
                }
                Ok(header.is_final)
            },
            CompressionType::DynamicTree => {
                proof {
                    if dynamic_block_fits(
                        d,
                        old(writer).window_start as int,
                        p_start,
                        old(writer).spec_written(),
                        old(writer).limit as int,
                    ) {
                        // the hypothesized preamble run makes the preamble
                        // well-formed, so decoding the trees cannot fail
                        let (plens, pdlens, ppm): (Seq<u8>, Seq<u8>, int) = choose|
                            lens: Seq<u8>,
                            dlens: Seq<u8>,
                            pm: int,
                        |
                            {
                                let nf = bits_value(d, p_start + 13, 4) + 4;
                                let ml = meta_lens(d, p_start + 17, nf as int);
                                &&& from_lengths_error(ml) is None
                                &&& from_lengths_error(lens) is None
                                &&& distance_lengths_error(dlens) is None
                                &&& lens.len() == bits_value(d, p_start + 3, 5) + 257
                                &&& dlens.len() == bits_value(d, p_start + 8, 5) + 1
                                &&& clen_run(
                                    d,
                                    map_of(spec_entries::<TreeCodeToken>(ml, 19)),
                                    p_start + 17 + 3 * nf,
                                    Seq::empty(),
                                    (lens.len() + dlens.len()) as int,
                                    pm,
                                    lens + dlens,
                                )
                                &&& pm <= 8 * d.len()
                                &&& #[trigger] symbol_run_fits(
                                    d,
                                    map_of(spec_entries::<LitLenToken>(lens, lens.len() as int)),
                                    map_of(
                                        spec_entries::<DistanceToken>(dlens, dlens.len() as int),
                                    ),
                                    old(writer).window_start as int,
                                    pm,
                                    old(writer).spec_written(),
                                    old(writer).limit as int,
                                )
                            };
                        let ghost_nf = (bits_value(d, p_start + 13, 4) + 4) as int;
                        let ghost_ml = meta_lens(d, p_start + 17, ghost_nf);
                        crate::bit_reader::lemma_bits_value_bound(d, p_start + 13, 4);
                        vstd::arithmetic::power2::lemma2_to64();
                        lemma_meta_lens_len(d, p_start + 17, ghost_nf);
                        lemma_clen_run_bounds(
                            d,
                            map_of(spec_entries::<TreeCodeToken>(ghost_ml, 19)),
                            p_start + 17 + 3 * ghost_nf,
                            Seq::empty(),
                            (plens.len() + pdlens.len()) as int,
                            ppm,
                            plens + pdlens,
                        );
                        assert((plens + pdlens).take(plens.len() as int) =~= plens);
                        assert((plens + pdlens).skip(plens.len() as int) =~= pdlens);
                        assert(clen_fits(
                            d,
                            map_of(spec_entries::<TreeCodeToken>(ghost_ml, 19)),
                            p_start + 17 + 3 * ghost_nf,
                            Seq::empty(),
                            (plens.len() + pdlens.len()) as int,
                            plens.len() as int,
                        ));
                        assert(preamble_fits(d, p_start + 3));
                    }
                }
                let trees = decode_litlen_distance_trees(bit_reader)?;
                let (lit, dist) = trees;
                let ghost pm = bit_reader.bit_pos();
                let ghost lens = choose|lens: Seq<u8>, dlens: Seq<u8>|
                    {
                        &&& from_lengths_error(lens) is None
                        &&& distance_lengths_error(dlens) is None
                        &&& lens.len() == bits_value(d, p_start + 3, 5) + 257
                        &&& dlens.len() == bits_value(d, p_start + 8, 5) + 1
                        &&& lit.entries@ == spec_entries::<LitLenToken>(
                            lens,
                            lens.len() as int,
                        )
                        &&& dist.entries@ == spec_entries::<DistanceToken>(
                            dlens,
                            dlens.len() as int,
                        )
                        &&& from_lengths_error(
                            meta_lens(
                                d,
                                p_start + 17,
                                (bits_value(d, p_start + 13, 4) + 4) as int,
                            ),
                        ) is None
                        &&& clen_run(
                            d,
                            map_of(
                                spec_entries::<TreeCodeToken>(
                                    meta_lens(
                                        d,
                                        p_start + 17,
                                        (bits_value(d, p_start + 13, 4) + 4) as int,
                                    ),
                                    19,
                                ),
                            ),
                            p_start + 17 + 3 * (bits_value(d, p_start + 13, 4) + 4),
                            Seq::empty(),
                            (lens.len() + dlens.len()) as int,
                            pm,
                            lens + dlens,
                        )
                    };
                proof {
                    let (lens0, dlens0) = lens;
                    assert(lengths_error(lens0, true) is None);
                    assert(lengths_error(dlens0, true) is None);
                    if dynamic_block_fits(
                        d,
                        old(writer).window_start as int,
                        p_start,
                        old(writer).spec_written(),
                        old(writer).limit as int,
                    ) {
                        // the preamble run is deterministic, so the decoded
                        // tables are exactly the hypothesized ones
                        let (plens, pdlens, ppm): (Seq<u8>, Seq<u8>, int) = choose|
                            lens: Seq<u8>,
                            dlens: Seq<u8>,
                            pm: int,
                        |
                            {
                                let nf = bits_value(d, p_start + 13, 4) + 4;
                                let ml = meta_lens(d, p_start + 17, nf as int);
                                &&& from_lengths_error(ml) is None
                                &&& from_lengths_error(lens) is None
                                &&& distance_lengths_error(dlens) is None
                                &&& lens.len() == bits_value(d, p_start + 3, 5) + 257
                                &&& dlens.len() == bits_value(d, p_start + 8, 5) + 1
                                &&& clen_run(
                                    d,
                                    map_of(spec_entries::<TreeCodeToken>(ml, 19)),
                                    p_start + 17 + 3 * nf,
                                    Seq::empty(),
                                    (lens.len() + dlens.len()) as int,
                                    pm,
                                    lens + dlens,
                                )
                                &&& pm <= 8 * d.len()
                                &&& #[trigger] symbol_run_fits(
                                    d,
                                    map_of(spec_entries::<LitLenToken>(lens, lens.len() as int)),
                                    map_of(
                                        spec_entries::<DistanceToken>(dlens, dlens.len() as int),
                                    ),
                                    old(writer).window_start as int,
                                    pm,
                                    old(writer).spec_written(),
                                    old(writer).limit as int,
                                )
                            };
                        let ghost_nf = (bits_value(d, p_start + 13, 4) + 4) as int;
                        let ghost_ml = meta_lens(d, p_start + 17, ghost_nf);
                        crate::bit_reader::lemma_bits_value_bound(d, p_start + 13, 4);
                        vstd::arithmetic::power2::lemma2_to64();
                        lemma_meta_lens_len(d, p_start + 17, ghost_nf);
                        lemma_clen_run_deterministic(
                            d,
                            map_of(spec_entries::<TreeCodeToken>(ghost_ml, 19)),
                            p_start + 17 + 3 * ghost_nf,
                            Seq::empty(),
                            (lens0.len() + dlens0.len()) as int,
                            pm,
                            lens0 + dlens0,
                            ppm,
                            plens + pdlens,
                            ghost_ml,
                        );
                        assert(pm == ppm);
                        assert(lens0 =~= (lens0 + dlens0).take(lens0.len() as int));
                        assert(plens =~= (plens + pdlens).take(plens.len() as int));
                        assert(dlens0 =~= (lens0 + dlens0).skip(lens0.len() as int));
                        assert(pdlens =~= (plens + pdlens).skip(plens.len() as int));
                        assert(lens0 == plens && dlens0 == pdlens);
                        assert(symbol_run_fits(
                            d,
                            lit.spec_map(),
                            dist.spec_map(),
                            old(writer).window_start as int,
                            pm,
                            old(writer).spec_written(),
                            old(writer).limit as int,
                        ));
                    }
                }
                self.read_compressed(bit_reader, writer, lit, dist)?;
                proof {
                    let (lens0, dlens0) = lens;
                    assert(lit.spec_map() == map_of(
                        spec_entries::<LitLenToken>(lens0, lens0.len() as int),
                    ));
                    assert(dist.spec_map() == map_of(
                        spec_entries::<DistanceToken>(dlens0, dlens0.len() as int),
                    ));
                    assert(symbol_run(
                        d,
                        map_of(spec_entries::<LitLenToken>(lens0, lens0.len() as int)),
                        map_of(spec_entries::<DistanceToken>(dlens0, dlens0.len() as int)),
                        old(writer).window_start as int,
                        pm,
                        old(writer).spec_written(),
                        bit_reader.bit_pos(),
                        writer.spec_written(),
                    ));
                    assert(bit_reader.bit_pos() > old(bit_reader).bit_pos());
                }
                Ok(header.is_final)
            },
            CompressionType::Reserved => {
                Err(Error::InvalidData(ErrorKind::ReservedBlockType))
            },
        }
    }

    /// The symbol loop shared by fixed and dynamic blocks: literals are
    /// written through, lengths pull a distance and expand a
    /// back-reference, end-of-block terminates.
    #[verifier::rlimit(100)]
    fn read_compressed(
        &mut self,
        bit_reader: &mut BitReader,
        writer: &mut TrackingWriter,
        lit_len_tree: HuffmanCoding<LitLenToken>,
        distance_tree: HuffmanCoding<DistanceToken>,
    ) -> (r: Result<(), Error>)
        requires
            old(bit_reader).wf(),
            old(writer).wf(),
            lit_len_tree.wf(),
            distance_tree.wf(),
            exists|lens: Seq<u8>|
                lit_len_tree.entries@ == #[trigger] spec_entries::<LitLenToken>(
                    lens,
                    lens.len() as int,
                ) && lengths_error(lens, true) is None,
            exists|lens: Seq<u8>|
                distance_tree.entries@ == #[trigger] spec_entries::<DistanceToken>(
                    lens,
                    lens.len() as int,
                ) && lengths_error(lens, true) is None,
        ensures
            *final(self) == *old(self),
            final(bit_reader).wf(),
            final(bit_reader).spec_data() == old(bit_reader).spec_data(),
            final(bit_reader).bit_pos() >= old(bit_reader).bit_pos(),
            final(writer).wf(),
            final(writer).limit == old(writer).limit,
            final(writer).member_start == old(writer).member_start,
            final(writer).window_start == old(writer).window_start,
            is_prefix_of(old(writer).spec_written(), final(writer).spec_written()),
            r matches Ok(()) ==> symbol_run(
                old(bit_reader).spec_data(),
                lit_len_tree.spec_map(),
                distance_tree.spec_map(),
                old(writer).window_start as int,
                old(bit_reader).bit_pos(),
                old(writer).spec_written(),
                final(bit_reader).bit_pos(),
                final(writer).spec_written(),
            ),
            r matches Err(e) ==> e == Error::UnexpectedEof || e == Error::InvalidData(
                ErrorKind::BadHuffmanCode,
            ) || e == Error::InvalidData(ErrorKind::DistanceTooFarBack) || e == Error::Io(
                ErrorKind::SinkFull,
            ),
            symbol_run_fits(
                old(bit_reader).spec_data(),
                lit_len_tree.spec_map(),
                distance_tree.spec_map(),
                old(writer).window_start as int,
                old(bit_reader).bit_pos(),
                old(writer).spec_written(),
                old(writer).limit as int,
            ) ==> r is Ok,
    {
        let ghost ll_lens = choose|lens: Seq<u8>|
            lit_len_tree.entries@ == #[trigger] spec_entries::<LitLenToken>(
                lens,
                lens.len() as int,
            ) && lengths_error(lens, true) is None;
        let ghost d_lens = choose|lens: Seq<u8>|
            distance_tree.entries@ == #[trigger] spec_entries::<DistanceToken>(
                lens,
                lens.len() as int,
            ) && lengths_error(lens, true) is None;
        let ghost dd = old(bit_reader).spec_data();
        let ghost llm = lit_len_tree.spec_map();
        let ghost dmm = distance_tree.spec_map();
        let ghost pos0 = old(bit_reader).bit_pos();
        let ghost w0 = old(writer).spec_written();
        let ghost wbase = old(writer).window_start as int;
        let ghost limit = old(writer).limit as int;
        loop
            invariant
                *self == *old(self),
                dd == old(bit_reader).spec_data(),
                llm == lit_len_tree.spec_map(),
                dmm == distance_tree.spec_map(),
                pos0 == old(bit_reader).bit_pos(),
                w0 == old(writer).spec_written(),
                bit_reader.wf(),
                bit_reader.bit_pos() >= old(bit_reader).bit_pos(),
                bit_reader.spec_data() == old(bit_reader).spec_data(),
                writer.wf(),
                writer.limit == old(writer).limit,
                writer.member_start == old(writer).member_start,
                writer.window_start == old(writer).window_start,
                is_prefix_of(old(writer).spec_written(), writer.spec_written()),
                lit_len_tree.wf(),
                distance_tree.wf(),
                lit_len_tree.entries@ == spec_entries::<LitLenToken>(
                    ll_lens,
                    ll_lens.len() as int,
                ),
                distance_tree.entries@ == spec_entries::<DistanceToken>(
                    d_lens,
                    d_lens.len() as int,
                ),
                lengths_error(ll_lens, true) is None,
                lengths_error(d_lens, true) is None,
                wbase == old(writer).window_start as int,
                limit == old(writer).limit as int,
                forall|p2: int, w2: Seq<u8>|
                    #[trigger] symbol_run(
                        dd,
                        llm,
                        dmm,
                        wbase,
                        bit_reader.bit_pos(),
                        writer.spec_written(),
                        p2,
                        w2,
                    ) ==> symbol_run(dd, llm, dmm, wbase, pos0, w0, p2, w2),
                symbol_run_fits(dd, llm, dmm, wbase, pos0, w0, limit) ==> symbol_run_fits(
                    dd,
                    llm,
                    dmm,
                    wbase,
                    bit_reader.bit_pos(),
                    writer.spec_written(),
                    limit,
                ),
            decreases 8 * bit_reader.spec_data().len() - bit_reader.bit_pos(),
        {
            let ghost pos_a = bit_reader.bit_pos();
            let ghost w_a = writer.spec_written();
            let ghost fits_cur = symbol_run_fits(dd, llm, dmm, wbase, pos_a, w_a, limit);
            let ghost (gp2, gw2): (int, Seq<u8>) = choose|p2: int, w2: Seq<u8>|
                {
                    &&& #[trigger] symbol_run(dd, llm, dmm, wbase, pos_a, w_a, p2, w2)
                    &&& p2 <= 8 * dd.len()
                    &&& w2.len() <= limit
                };
            let ghost mut gl: int = 0;
            proof {
                if fits_cur {
                    assert(symbol_run(dd, llm, dmm, wbase, pos_a, w_a, gp2, gw2) && gp2 <= 8
                        * dd.len() && gw2.len() <= limit);
                    gl = lemma_run_first(dd, llm, dmm, wbase, pos_a, w_a, gp2, gw2);
                    crate::deflate::huffman_coding::lemma_no_shorter_key::<LitLenToken>(
                        ll_lens,
                        dd,
                        pos_a,
                        gl,
                    );
                }
            }
            let sym = lit_len_tree.read_symbol(bit_reader)?;
            let ghost l_sym = bit_reader.bit_pos() - pos_a;
            proof {
                crate::deflate::huffman_coding::lemma_symbol_in_alphabet(
                    lit_len_tree,
                    ll_lens,
                    code_key(dd, pos_a, l_sym as nat),
                );
                assert(llm.contains_key(code_key(dd, pos_a, l_sym as nat)));
                assert(llm[code_key(dd, pos_a, l_sym as nat)] == sym);
                vstd::arithmetic::power2::lemma2_to64();
                if fits_cur {
                    // the run's first code word is the unique shortest match,
                    // so the symbol just read is the run's
                    if l_sym < gl {
                        assert(!llm.contains_key(code_key(dd, pos_a, l_sym as nat)));
                    }
                    if gl < l_sym {
                        assert(!llm.contains_key(code_key(dd, pos_a, gl as nat)));
                    }
                    assert(l_sym == gl);
                    assert(sym == llm[code_key(dd, pos_a, gl as nat)]);
                }
            }
            match sym {
                LitLenToken::Literal(v) => {
                    proof {
                        if fits_cur {
                            lemma_symbol_run_bounds(
                                dd,
                                llm,
                                dmm,
                                wbase,
                                pos_a + gl,
                                w_a.push(v),
                                gp2,
                                gw2,
                            );
                            assert(w_a.len() < limit);
                        }
                    }
                    writer.write_u8(v)?;
                    proof {
                        assert(writer.spec_written() =~= w_a + seq![v]);
                        lemma_append_prefix(w_a, seq![v]);
                        lemma_prefix_trans(
                            old(writer).spec_written(),
                            w_a,
                            writer.spec_written(),
                        );
                        assert(writer.spec_written() == w_a.push(v));
                        assert forall|p2: int, w2: Seq<u8>|
                            #[trigger] symbol_run(
                                dd,
                                llm,
                                dmm,
                                wbase,
                                bit_reader.bit_pos(),
                                writer.spec_written(),
                                p2,
                                w2,
                            ) implies symbol_run(dd, llm, dmm, wbase, pos0, w0, p2, w2) by {
                            assert(symbol_run(dd, llm, dmm, wbase, pos_a, w_a, p2, w2));
                        }
                        if fits_cur {
                            assert(symbol_run(
                                dd,
                                llm,
                                dmm,
                                wbase,
                                bit_reader.bit_pos(),
                                writer.spec_written(),
                                gp2,
                                gw2,
                            ));
                            assert(symbol_run_fits(
                                dd,
                                llm,
                                dmm,
                                wbase,
                                bit_reader.bit_pos(),
                                writer.spec_written(),
                                limit,
                            ));
                        }
                    }
                },
                LitLenToken::EndOfBlock => {
                    proof {
                        let pr = bit_reader.bit_pos();
                        assert(symbol_run(dd, llm, dmm, wbase, pos_a, w_a, pr, w_a));
                        assert(symbol_run(dd, llm, dmm, wbase, pos0, w0, pr, w_a));
                    }
                    return Ok(());
                },
                LitLenToken::Length { base, extra_bits } => {
                    proof {
                        let w = choose|w: u16|
                            crate::deflate::huffman_coding::LitLenToken::spec_of_word(w)
                                == Some(LitLenToken::Length { base, extra_bits });
                        assert(base <= 258 && extra_bits <= 5);
                    }
                    let ghost mut gl2: int = 0;
                    proof {
                        if fits_cur {
                            gl2 = choose|l2: int|
                                {
                                    &&& 1 <= l2 <= 15
                                    &&& #[trigger] dmm.contains_key(
                                        code_key(dd, pos_a + gl + extra_bits, l2 as nat),
                                    )
                                    &&& {
                                        let length = base + bits_value(
                                            dd,
                                            pos_a + gl,
                                            extra_bits as nat,
                                        );
                                        let dt = dmm[code_key(
                                            dd,
                                            pos_a + gl + extra_bits,
                                            l2 as nat,
                                        )];
                                        let dp = pos_a + gl + extra_bits + l2;
                                        let dist = dt.base + bits_value(
                                            dd,
                                            dp,
                                            dt.extra_bits as nat,
                                        );
                                        let np = dp + dt.extra_bits;
                                        &&& 1 <= dist <= window_extent(w_a, wbase)
                                        &&& np < gp2
                                        &&& symbol_run(
                                            dd,
                                            llm,
                                            dmm,
                                            wbase,
                                            np,
                                            expand_back_reference(
                                                w_a,
                                                dist as int,
                                                length as nat,
                                            ),
                                            gp2,
                                            gw2,
                                        )
                                    }
                                };
                            let g_len = base + bits_value(dd, pos_a + gl, extra_bits as nat);
                            let g_dt = dmm[code_key(dd, pos_a + gl + extra_bits, gl2 as nat)];
                            let g_dp = pos_a + gl + extra_bits + gl2;
                            let g_dist = g_dt.base + bits_value(dd, g_dp, g_dt.extra_bits as nat);
                            let g_np = g_dp + g_dt.extra_bits;
                            assert(1 <= gl2 <= 15 && dmm.contains_key(
                                code_key(dd, pos_a + gl + extra_bits, gl2 as nat),
                            ) && 1 <= g_dist <= window_extent(w_a, wbase) && g_np < gp2
                                && symbol_run(
                                dd,
                                llm,
                                dmm,
                                wbase,
                                g_np,
                                expand_back_reference(w_a, g_dist as int, g_len as nat),
                                gp2,
                                gw2,
                            ));
                            crate::deflate::huffman_coding::lemma_no_shorter_key::<
                                DistanceToken,
                            >(d_lens, dd, pos_a + gl + extra_bits, gl2);
                        }
                    }
                    let extra = bit_reader.read_bits(extra_bits)?;
                    proof {
                        vstd::arithmetic::power2::lemma2_to64();
                        if extra_bits < 5 {
                            vstd::arithmetic::power2::lemma_pow2_strictly_increases(
                                extra_bits as nat,
                                5,
                            );
                        }
                    }
                    let length: u16 = base + extra.bits();
                    let ghost dpos0 = bit_reader.bit_pos();
                    let dist_token = distance_tree.read_symbol(bit_reader)?;
                    proof {
                        crate::deflate::huffman_coding::lemma_symbol_in_alphabet(
                            distance_tree,
                            d_lens,
                            crate::deflate::huffman_coding::code_key(
                                bit_reader.spec_data(),
                                dpos0,
                                (bit_reader.bit_pos() - dpos0) as nat,
                            ),
                        );
                        let w = choose|w: u16|
                            crate::deflate::huffman_coding::DistanceToken::spec_of_word(w)
                                == Some(dist_token);
                        vstd::arithmetic::power2::lemma2_to64();
                        if 4 <= w <= 29 {
                            let e = (w / 2 - 1) as nat;
                            assert(pow2(e) <= pow2(13)) by {
                                if e < 13 {
                                    vstd::arithmetic::power2::lemma_pow2_strictly_increases(
                                        e,
                                        13,
                                    );
                                }
                            }
                            assert((((w % 2) + 2)) * pow2(e) <= 3 * 8192) by (nonlinear_arith)
                                requires
                                    (w % 2) + 2 <= 3,
                                    pow2(e) <= 8192,
                            ;
                        }
                        assert(dist_token.base <= 24577 && dist_token.extra_bits <= 13);
                        if dist_token.extra_bits < 14 {
                            vstd::arithmetic::power2::lemma_pow2_strictly_increases(
                                dist_token.extra_bits as nat,
                                14,
                            );
                        }
                    }
                    let ghost l2 = bit_reader.bit_pos() - dpos0;
                    proof {
                        assert(dmm.contains_key(code_key(dd, dpos0, l2 as nat)));
                        assert(dmm[code_key(dd, dpos0, l2 as nat)] == dist_token);
                        if fits_cur {
                            // the distance code word read is the run's, again by
                            // mutual shortest-match
                            if l2 < gl2 {
                                assert(!dmm.contains_key(code_key(dd, dpos0, l2 as nat)));
                            }
                            if gl2 < l2 {
                                assert(!dmm.contains_key(code_key(dd, dpos0, gl2 as nat)));
                            }
                            assert(l2 == gl2);
                            assert(dist_token == dmm[code_key(dd, dpos0, gl2 as nat)]);
                        }
                    }
                    let extra_distance = bit_reader.read_bits(dist_token.extra_bits)?;
                    let distance: u16 = dist_token.base + extra_distance.bits();
                    let r = writer.write_previous(distance as usize, length as usize);
                    proof {
                        if r is Ok {
                            lemma_expand_back_reference_prefix(
                                w_a,
                                distance as int,
                                length as nat,
                            );
                        } else if writer.spec_written() != w_a {
                            lemma_expand_back_reference_prefix(
                                w_a,
                                distance as int,
                                (old(writer).limit - w_a.len()) as nat,
                            );
                        }
                        lemma_prefix_trans(
                            old(writer).spec_written(),
                            w_a,
                            writer.spec_written(),
                        );
                        if fits_cur {
                            // the run's side conditions rule both write failures out
                            lemma_symbol_run_bounds(
                                dd,
                                llm,
                                dmm,
                                wbase,
                                dpos0 + gl2 + dist_token.extra_bits,
                                expand_back_reference(w_a, distance as int, length as nat),
                                gp2,
                                gw2,
                            );
                            lemma_expand_back_reference_len(
                                w_a,
                                distance as int,
                                length as nat,
                            );
                            assert(w_a.len() + length <= gw2.len());
                            assert(1 <= distance as int <= window_extent(w_a, wbase));
                            assert(r is Ok);
                        }
                    }
                    match r {
                        Ok(()) => {},
                        Err(e) => {
                            return Err(e);
                        },
                    }
                    proof {
                        assert(writer.spec_written()
                            == crate::deflate::tracking_writer::expand_back_reference(
                            w_a,
                            distance as int,
                            length as nat,
                        ));
                        assert(1 <= distance as int <= window_extent(w_a, wbase));
                        assert forall|p2: int, w2: Seq<u8>|
                            #[trigger] symbol_run(
                                dd,
                                llm,
                                dmm,
                                wbase,
                                bit_reader.bit_pos(),
                                writer.spec_written(),
                                p2,
                                w2,
                            ) implies symbol_run(dd, llm, dmm, wbase, pos0, w0, p2, w2) by {
                            assert(symbol_run(dd, llm, dmm, wbase, pos_a, w_a, p2, w2));
                        }
                        if fits_cur {
                            assert(bit_reader.bit_pos() == dpos0 + gl2 + dist_token.extra_bits);
                            assert(symbol_run_fits(
                                dd,
                                llm,
                                dmm,
                                wbase,
                                bit_reader.bit_pos(),
                                writer.spec_written(),
                                limit,
                            ));
                        }
                    }
                },
            }
        }
    }
}


/// How far back a reference may reach in output `w` when the current
/// member's window began at output position `wbase`: the member-local fill,
/// capped at the 32 KiB window size.
pub open spec fn window_extent(w: Seq<u8>, wbase: int) -> int {
    if w.len() - wbase < 32768 {
        w.len() - wbase
    } else {
        32768
    }
}

/// One complete symbol loop, as RFC 1951 defines it over the raw bits: from
/// bit position `pos` with output `w`, decoding literal/length code words
/// from `ll` (and, after a length, a distance word from `dm` and the extra
/// bits of both), appending literals and back-reference expansions, reaches
/// the end-of-block symbol exactly at bit position `pos2` with output `w2`.
/// Every back-reference stays within the current member's sliding window:
/// its distance is at most the window extent over `wbase`, so bytes written
/// before the member began are out of reach.
pub open spec fn symbol_run(
    d: Seq<u8>,
    ll: Map<BitSequence, LitLenToken>,
    dm: Map<BitSequence, DistanceToken>,
    wbase: int,
    pos: int,
    w: Seq<u8>,
    pos2: int,
    w2: Seq<u8>,
) -> bool
    decreases pos2 - pos,
{
    &&& pos < pos2
    &&& exists|l: int|
        {
            &&& 1 <= l <= 15
            &&& #[trigger] ll.contains_key(code_key(d, pos, l as nat))
            &&& (match ll[code_key(d, pos, l as nat)] {
                LitLenToken::EndOfBlock => pos2 == pos + l && w2 == w,
                LitLenToken::Literal(v) => pos + l < pos2 && symbol_run(
                    d,
                    ll,
                    dm,
                    wbase,
                    pos + l,
                    w.push(v),
                    pos2,
                    w2,
                ),
                LitLenToken::Length { base, extra_bits } => exists|l2: int|
                    {
                        &&& 1 <= l2 <= 15
                        &&& #[trigger] dm.contains_key(
                            code_key(d, pos + l + extra_bits, l2 as nat),
                        )
                        &&& {
                            let length = base + bits_value(d, pos + l, extra_bits as nat);
                            let dt = dm[code_key(d, pos + l + extra_bits, l2 as nat)];
                            let dp = pos + l + extra_bits + l2;
                            let dist = dt.base + bits_value(d, dp, dt.extra_bits as nat);
                            let np = dp + dt.extra_bits;
                            &&& 1 <= dist <= window_extent(w, wbase)
                            &&& np < pos2
                            &&& symbol_run(
                                d,
                                ll,
                                dm,
                                wbase,
                                np,
                                crate::deflate::tracking_writer::expand_back_reference(
                                    w,
                                    dist as int,
                                    length as nat,
                                ),
                                pos2,
                                w2,
                            )
                        }
                    },
            })
        }
}


/// One DEFLATE block's effect on the bit stream and the output, per the
/// three-bit header at `pos`: a stored block copies its aligned payload, a
/// fixed-Huffman block is a symbol run over the RFC 1951 fixed codes, and a
/// dynamic block is a symbol run over some pair of accepted length tables
/// whose preamble ends at `pm`. `wbase` is where the current member's
/// window begins in the output.
pub open spec fn block_body(
    d: Seq<u8>,
    wbase: int,
    pos: int,
    w: Seq<u8>,
    mid: int,
    wmid: Seq<u8>,
) -> bool {
    match spec_block_type(bits_value(d, pos + 1, 2)) {
        CompressionType::Uncompressed => {
            let q = spec_align_up(pos + 3);
            &&& le16(d, q + 2) == (le16(d, q) ^ 0xFFFFu16)
            &&& mid == 8 * (q + 4 + le16(d, q))
            &&& wmid == w + d.subrange(q + 4, q + 4 + le16(d, q))
        },
        CompressionType::FixedTree => symbol_run(
            d,
            map_of(spec_entries::<LitLenToken>(spec_fixed_litlen_lengths(), 288)),
            map_of(spec_entries::<DistanceToken>(spec_fixed_distance_lengths(), 32)),
            wbase,
            pos + 3,
            w,
            mid,
            wmid,
        ),
        CompressionType::DynamicTree => exists|lens: Seq<u8>, dlens: Seq<u8>, pm: int|
            {
                let nf = bits_value(d, pos + 13, 4) + 4;
                let ml = meta_lens(d, pos + 17, nf as int);
                &&& from_lengths_error(ml) is None
                &&& from_lengths_error(lens) is None
                &&& distance_lengths_error(dlens) is None
                &&& lens.len() == bits_value(d, pos + 3, 5) + 257
                &&& dlens.len() == bits_value(d, pos + 8, 5) + 1
                &&& clen_run(
                    d,
                    map_of(spec_entries::<TreeCodeToken>(ml, 19)),
                    pos + 17 + 3 * nf,
                    Seq::empty(),
                    (lens.len() + dlens.len()) as int,
                    pm,
                    lens + dlens,
                )
                &&& #[trigger] symbol_run(
                    d,
                    map_of(spec_entries::<LitLenToken>(lens, lens.len() as int)),
                    map_of(spec_entries::<DistanceToken>(dlens, dlens.len() as int)),
                    wbase,
                    pm,
                    w,
                    mid,
                    wmid,
                )
            },
        CompressionType::Reserved => false,
    }
}

/// A run of DEFLATE blocks from bit position `pos` with output `w`, block
/// after block, up to and including the one whose final-block flag is set,
/// which ends exactly at `pos2` with output `w2`; all blocks share the
/// member window that begins at output position `wbase`.
pub open spec fn block_run(
    d: Seq<u8>,
    wbase: int,
    pos: int,
    w: Seq<u8>,
    pos2: int,
    w2: Seq<u8>,
) -> bool
    decreases pos2 - pos,
{
    &&& pos < pos2
    &&& exists|mid: int, wmid: Seq<u8>|
        {
            &&& #[trigger] block_body(d, wbase, pos, w, mid, wmid)
            &&& if bit_at(d, pos) == 1 {
                mid == pos2 && wmid == w2
            } else {
                pos < mid < pos2 && block_run(d, wbase, mid, wmid, pos2, w2)
            }
        }
}

/// A symbol run from `pos` with output `w` exists whose bits lie within
/// the input and whose final output fits a sink of capacity `limit`.
pub open spec fn symbol_run_fits(
    d: Seq<u8>,
    ll: Map<BitSequence, LitLenToken>,
    dm: Map<BitSequence, DistanceToken>,
    wbase: int,
    pos: int,
    w: Seq<u8>,
    limit: int,
) -> bool {
    exists|pos2: int, w2: Seq<u8>|
        {
            &&& #[trigger] symbol_run(d, ll, dm, wbase, pos, w, pos2, w2)
            &&& pos2 <= 8 * d.len()
            &&& w2.len() <= limit
        }
}

/// A symbol run moves forward in the bit stream and only appends output.
pub proof fn lemma_symbol_run_bounds(
    d: Seq<u8>,
    ll: Map<BitSequence, LitLenToken>,
    dm: Map<BitSequence, DistanceToken>,
    wbase: int,
    pos: int,
    w: Seq<u8>,
    pos2: int,
    w2: Seq<u8>,
)
    requires
        symbol_run(d, ll, dm, wbase, pos, w, pos2, w2),
    ensures
        pos < pos2,
        w.len() <= w2.len(),
    decreases pos2 - pos,
{
    let l = choose|l: int|
        {
            &&& 1 <= l <= 15
            &&& #[trigger] ll.contains_key(code_key(d, pos, l as nat))
            &&& (match ll[code_key(d, pos, l as nat)] {
                LitLenToken::EndOfBlock => pos2 == pos + l && w2 == w,
                LitLenToken::Literal(v) => pos + l < pos2 && symbol_run(
                    d,
                    ll,
                    dm,
                    wbase,
                    pos + l,
                    w.push(v),
                    pos2,
                    w2,
                ),
                LitLenToken::Length { base, extra_bits } => exists|l2: int|
                    {
                        &&& 1 <= l2 <= 15
                        &&& #[trigger] dm.contains_key(
                            code_key(d, pos + l + extra_bits, l2 as nat),
                        )
                        &&& {
                            let length = base + bits_value(d, pos + l, extra_bits as nat);
                            let dt = dm[code_key(d, pos + l + extra_bits, l2 as nat)];
                            let dp = pos + l + extra_bits + l2;
                            let dist = dt.base + bits_value(d, dp, dt.extra_bits as nat);
                            let np = dp + dt.extra_bits;
                            &&& 1 <= dist <= window_extent(w, wbase)
                            &&& np < pos2
                            &&& symbol_run(
                                d,
                                ll,
                                dm,
                                wbase,
                                np,
                                crate::deflate::tracking_writer::expand_back_reference(
                                    w,
                                    dist as int,
                                    length as nat,
                                ),
                                pos2,
                                w2,
                            )
                        }
                    },
            })
        };
    match ll[code_key(d, pos, l as nat)] {
        LitLenToken::EndOfBlock => {},
        LitLenToken::Literal(v) => {
            lemma_symbol_run_bounds(d, ll, dm, wbase, pos + l, w.push(v), pos2, w2);
        },
        LitLenToken::Length { base, extra_bits } => {
            let l2 = choose|l2: int|
                {
                    &&& 1 <= l2 <= 15
                    &&& #[trigger] dm.contains_key(code_key(d, pos + l + extra_bits, l2 as nat))
                    &&& {
                        let length = base + bits_value(d, pos + l, extra_bits as nat);
                        let dt = dm[code_key(d, pos + l + extra_bits, l2 as nat)];
                        let dp = pos + l + extra_bits + l2;
                        let dist = dt.base + bits_value(d, dp, dt.extra_bits as nat);
                        let np = dp + dt.extra_bits;
                        &&& 1 <= dist <= window_extent(w, wbase)
                        &&& np < pos2
                        &&& symbol_run(
                            d,
                            ll,
                            dm,
                            wbase,
                            np,
                            crate::deflate::tracking_writer::expand_back_reference(
                                w,
                                dist as int,
                                length as nat,
                            ),
                            pos2,
                            w2,
                        )
                    }
                };
            let length = base + bits_value(d, pos + l, extra_bits as nat);
            let dt = dm[code_key(d, pos + l + extra_bits, l2 as nat)];
            let dp = pos + l + extra_bits + l2;
            let dist = dt.base + bits_value(d, dp, dt.extra_bits as nat);
            let np = dp + dt.extra_bits;
            let we = crate::deflate::tracking_writer::expand_back_reference(
                w,
                dist as int,
                length as nat,
            );
            crate::deflate::tracking_writer::lemma_expand_back_reference_len(
                w,
                dist as int,
                length as nat,
            );
            lemma_symbol_run_bounds(d, ll, dm, wbase, np, we, pos2, w2);
        },
    }
}

/// Unfolds the first step of a symbol run: some code word of 1 to 15 bits
/// stands at `pos`, ends within the run, and the run continues per its
/// symbol's meaning.
pub proof fn lemma_run_first(
    d: Seq<u8>,
    ll: Map<BitSequence, LitLenToken>,
    dm: Map<BitSequence, DistanceToken>,
    wbase: int,
    pos: int,
    w: Seq<u8>,
    pos2: int,
    w2: Seq<u8>,
) -> (l: int)
    requires
        symbol_run(d, ll, dm, wbase, pos, w, pos2, w2),
    ensures
        1 <= l <= 15,
        pos + l <= pos2,
        ll.contains_key(code_key(d, pos, l as nat)),
        match ll[code_key(d, pos, l as nat)] {
            LitLenToken::EndOfBlock => pos2 == pos + l && w2 == w,
            LitLenToken::Literal(v) => pos + l < pos2 && symbol_run(
                d,
                ll,
                dm,
                wbase,
                pos + l,
                w.push(v),
                pos2,
                w2,
            ),
            LitLenToken::Length { base, extra_bits } => exists|l2: int|
                {
                    &&& 1 <= l2 <= 15
                    &&& #[trigger] dm.contains_key(code_key(d, pos + l + extra_bits, l2 as nat))
                    &&& {
                        let length = base + bits_value(d, pos + l, extra_bits as nat);
                        let dt = dm[code_key(d, pos + l + extra_bits, l2 as nat)];
                        let dp = pos + l + extra_bits + l2;
                        let dist = dt.base + bits_value(d, dp, dt.extra_bits as nat);
                        let np = dp + dt.extra_bits;
                        &&& 1 <= dist <= window_extent(w, wbase)
                        &&& np < pos2
                        &&& symbol_run(
                            d,
                            ll,
                            dm,
                            wbase,
                            np,
                            crate::deflate::tracking_writer::expand_back_reference(
                                w,
                                dist as int,
                                length as nat,
                            ),
                            pos2,
                            w2,
                        )
                    }
                },
        },
{
    let l = choose|l: int|
        {
            &&& 1 <= l <= 15
            &&& #[trigger] ll.contains_key(code_key(d, pos, l as nat))
            &&& (match ll[code_key(d, pos, l as nat)] {
                LitLenToken::EndOfBlock => pos2 == pos + l && w2 == w,
                LitLenToken::Literal(v) => pos + l < pos2 && symbol_run(
                    d,
                    ll,
                    dm,
                    wbase,
                    pos + l,
                    w.push(v),
                    pos2,
                    w2,
                ),
                LitLenToken::Length { base, extra_bits } => exists|l2: int|
                    {
                        &&& 1 <= l2 <= 15
                        &&& #[trigger] dm.contains_key(
                            code_key(d, pos + l + extra_bits, l2 as nat),
                        )
                        &&& {
                            let length = base + bits_value(d, pos + l, extra_bits as nat);
                            let dt = dm[code_key(d, pos + l + extra_bits, l2 as nat)];
                            let dp = pos + l + extra_bits + l2;
                            let dist = dt.base + bits_value(d, dp, dt.extra_bits as nat);
                            let np = dp + dt.extra_bits;
                            &&& 1 <= dist <= window_extent(w, wbase)
                            &&& np < pos2
                            &&& symbol_run(
                                d,
                                ll,
                                dm,
                                wbase,
                                np,
                                crate::deflate::tracking_writer::expand_back_reference(
                                    w,
                                    dist as int,
                                    length as nat,
                                ),
                                pos2,
                                w2,
                            )
                        }
                    },
            })
        };
    match ll[code_key(d, pos, l as nat)] {
        LitLenToken::EndOfBlock => {},
        LitLenToken::Literal(v) => {},
        LitLenToken::Length { base, extra_bits } => {
            let l2 = choose|l2: int|
                {
                    &&& 1 <= l2 <= 15
                    &&& #[trigger] dm.contains_key(code_key(d, pos + l + extra_bits, l2 as nat))
                    &&& {
                        let length = base + bits_value(d, pos + l, extra_bits as nat);
                        let dt = dm[code_key(d, pos + l + extra_bits, l2 as nat)];
                        let dp = pos + l + extra_bits + l2;
                        let dist = dt.base + bits_value(d, dp, dt.extra_bits as nat);
                        let np = dp + dt.extra_bits;
                        &&& 1 <= dist <= window_extent(w, wbase)
                        &&& np < pos2
                        &&& symbol_run(
                            d,
                            ll,
                            dm,
                            wbase,
                            np,
                            crate::deflate::tracking_writer::expand_back_reference(
                                w,
                                dist as int,
                                length as nat,
                            ),
                            pos2,
                            w2,
                        )
                    }
                };
            assert(pos + l <= pos + l + extra_bits + l2 + dm[code_key(
                d,
                pos + l + extra_bits,
                l2 as nat,
            )].extra_bits);
        },
    }
    l
}

/// Over canonical tables a symbol run is deterministic: each code word is
/// the unique shortest match at its position, so from one starting point
/// the run can end only one way.
pub proof fn lemma_symbol_run_deterministic(
    d: Seq<u8>,
    ll: Map<BitSequence, LitLenToken>,
    dm: Map<BitSequence, DistanceToken>,
    wbase: int,
    pos: int,
    w: Seq<u8>,
    pos2a: int,
    w2a: Seq<u8>,
    pos2b: int,
    w2b: Seq<u8>,
    lens: Seq<u8>,
    dlens: Seq<u8>,
)
    requires
        ll == map_of(spec_entries::<LitLenToken>(lens, lens.len() as int)),
        dm == map_of(spec_entries::<DistanceToken>(dlens, dlens.len() as int)),
        lengths_error(lens, true) is None,
        lengths_error(dlens, true) is None,
        symbol_run(d, ll, dm, wbase, pos, w, pos2a, w2a),
        symbol_run(d, ll, dm, wbase, pos, w, pos2b, w2b),
    ensures
        pos2a == pos2b,
        w2a == w2b,
    decreases pos2a - pos,
{
    let la = lemma_run_first(d, ll, dm, wbase, pos, w, pos2a, w2a);
    let lb = lemma_run_first(d, ll, dm, wbase, pos, w, pos2b, w2b);
    crate::deflate::huffman_coding::lemma_no_shorter_key::<LitLenToken>(lens, d, pos, la);
    crate::deflate::huffman_coding::lemma_no_shorter_key::<LitLenToken>(lens, d, pos, lb);
    if la < lb {
        assert(!ll.contains_key(code_key(d, pos, la as nat)));
    }
    if lb < la {
        assert(!ll.contains_key(code_key(d, pos, lb as nat)));
    }
    assert(la == lb);
    match ll[code_key(d, pos, la as nat)] {
        LitLenToken::EndOfBlock => {},
        LitLenToken::Literal(v) => {
            lemma_symbol_run_deterministic(
                d,
                ll,
                dm,
                wbase,
                pos + la,
                w.push(v),
                pos2a,
                w2a,
                pos2b,
                w2b,
                lens,
                dlens,
            );
        },
        LitLenToken::Length { base, extra_bits } => {
            let l2a = choose|l2: int|
                {
                    &&& 1 <= l2 <= 15
                    &&& #[trigger] dm.contains_key(code_key(d, pos + la + extra_bits, l2 as nat))
                    &&& {
                        let length = base + bits_value(d, pos + la, extra_bits as nat);
                        let dt = dm[code_key(d, pos + la + extra_bits, l2 as nat)];
                        let dp = pos + la + extra_bits + l2;
                        let dist = dt.base + bits_value(d, dp, dt.extra_bits as nat);
                        let np = dp + dt.extra_bits;
                        &&& 1 <= dist <= window_extent(w, wbase)
                        &&& np < pos2a
                        &&& symbol_run(
                            d,
                            ll,
                            dm,
                            wbase,
                            np,
                            crate::deflate::tracking_writer::expand_back_reference(
                                w,
                                dist as int,
                                length as nat,
                            ),
                            pos2a,
                            w2a,
                        )
                    }
                };
            let l2b = choose|l2: int|
                {
                    &&& 1 <= l2 <= 15
                    &&& #[trigger] dm.contains_key(code_key(d, pos + la + extra_bits, l2 as nat))
                    &&& {
                        let length = base + bits_value(d, pos + la, extra_bits as nat);
                        let dt = dm[code_key(d, pos + la + extra_bits, l2 as nat)];
                        let dp = pos + la + extra_bits + l2;
                        let dist = dt.base + bits_value(d, dp, dt.extra_bits as nat);
                        let np = dp + dt.extra_bits;
                        &&& 1 <= dist <= window_extent(w, wbase)
                        &&& np < pos2b
                        &&& symbol_run(
                            d,
                            ll,
                            dm,
                            wbase,
                            np,
                            crate::deflate::tracking_writer::expand_back_reference(
                                w,
                                dist as int,
                                length as nat,
                            ),
                            pos2b,
                            w2b,
                        )
                    }
                };
            crate::deflate::huffman_coding::lemma_no_shorter_key::<DistanceToken>(
                dlens,
                d,
                pos + la + extra_bits,
                l2a,
            );
            crate::deflate::huffman_coding::lemma_no_shorter_key::<DistanceToken>(
                dlens,
                d,
                pos + la + extra_bits,
                l2b,
            );
            if l2a < l2b {
                assert(!dm.contains_key(code_key(d, pos + la + extra_bits, l2a as nat)));
            }
            if l2b < l2a {
                assert(!dm.contains_key(code_key(d, pos + la + extra_bits, l2b as nat)));
            }
            assert(l2a == l2b);
            let length = base + bits_value(d, pos + la, extra_bits as nat);
            let dt = dm[code_key(d, pos + la + extra_bits, l2a as nat)];
            let dp = pos + la + extra_bits + l2a;
            let dist = dt.base + bits_value(d, dp, dt.extra_bits as nat);
            let np = dp + dt.extra_bits;
            lemma_symbol_run_deterministic(
                d,
                ll,
                dm,
                wbase,
                np,
                crate::deflate::tracking_writer::expand_back_reference(
                    w,
                    dist as int,
                    length as nat,
                ),
                pos2a,
                w2a,
                pos2b,
                w2b,
                lens,
                dlens,
            );
        },
    }
}

/// A final stored block with a valid complement lies at bit position `p` of
/// `d`, its whole payload lies within the input, and a sink with `room`
/// bytes still free accepts it whole.
pub open spec fn final_stored_block_fits(d: Seq<u8>, p: int, room: int) -> bool {
    let q = spec_align_up(p + 3);
    &&& p + 3 <= 8 * d.len()
    &&& bit_at(d, p) == 1
    &&& spec_block_type(bits_value(d, p + 1, 2)) == CompressionType::Uncompressed
    &&& q + 4 + le16(d, q) <= d.len()
    &&& le16(d, q + 2) == (le16(d, q) ^ 0xFFFFu16)
    &&& le16(d, q) <= room
}

/// A dynamic-Huffman block lies at bit position `p` of `d`: a well-formed
/// preamble decodes two accepted tables, and a complete symbol run over
/// exactly those tables stays within the input with its output fitting a
/// sink of capacity `limit`.
pub open spec fn dynamic_block_fits(
    d: Seq<u8>,
    wbase: int,
    p: int,
    w: Seq<u8>,
    limit: int,
) -> bool {
    &&& p + 3 <= 8 * d.len()
    &&& spec_block_type(bits_value(d, p + 1, 2)) == CompressionType::DynamicTree
    &&& exists|lens: Seq<u8>, dlens: Seq<u8>, pm: int|
        {
            let nf = bits_value(d, p + 13, 4) + 4;
            let ml = meta_lens(d, p + 17, nf as int);
            &&& from_lengths_error(ml) is None
            &&& from_lengths_error(lens) is None
            &&& distance_lengths_error(dlens) is None
            &&& lens.len() == bits_value(d, p + 3, 5) + 257
            &&& dlens.len() == bits_value(d, p + 8, 5) + 1
            &&& clen_run(
                d,
                map_of(spec_entries::<TreeCodeToken>(ml, 19)),
                p + 17 + 3 * nf,
                Seq::empty(),
                (lens.len() + dlens.len()) as int,
                pm,
                lens + dlens,
            )
            &&& pm <= 8 * d.len()
            &&& #[trigger] symbol_run_fits(
                d,
                map_of(spec_entries::<LitLenToken>(lens, lens.len() as int)),
                map_of(spec_entries::<DistanceToken>(dlens, dlens.len() as int)),
                wbase,
                pm,
                w,
                limit,
            )
        }
}

/// A final fixed-Huffman block lies at bit position `p` of `d`, a complete
/// symbol run for it stays within the input, and the run's output fits a
/// sink of capacity `limit`.
pub open spec fn final_fixed_block_fits(
    d: Seq<u8>,
    wbase: int,
    p: int,
    w: Seq<u8>,
    limit: int,
) -> bool {
    &&& p + 3 <= 8 * d.len()
    &&& bit_at(d, p) == 1
    &&& spec_block_type(bits_value(d, p + 1, 2)) == CompressionType::FixedTree
    &&& symbol_run_fits(
        d,
        map_of(spec_entries::<LitLenToken>(spec_fixed_litlen_lengths(), 288)),
        map_of(spec_entries::<DistanceToken>(spec_fixed_distance_lengths(), 32)),
        wbase,
        p + 3,
        w,
        limit,
    )
}

/// A run of blocks from `pos` with output `w` exists that ends within the
/// input and whose final output fits a sink of capacity `limit`.
pub open spec fn block_run_fits(d: Seq<u8>, wbase: int, pos: int, w: Seq<u8>, limit: int) -> bool {
    exists|pos2: int, w2: Seq<u8>|
        {
            &&& #[trigger] block_run(d, wbase, pos, w, pos2, w2)
            &&& pos2 <= 8 * d.len()
            &&& w2.len() <= limit
        }
}

/// A block moves forward in the bit stream and only appends output.
pub proof fn lemma_block_body_bounds(
    d: Seq<u8>,
    wbase: int,
    pos: int,
    w: Seq<u8>,
    mid: int,
    wmid: Seq<u8>,
)
    requires
        block_body(d, wbase, pos, w, mid, wmid),
    ensures
        pos + 3 <= mid,
        w.len() <= wmid.len(),
{
    match spec_block_type(bits_value(d, pos + 1, 2)) {
        CompressionType::Uncompressed => {
            let q = spec_align_up(pos + 3);
            assert(pos + 3 <= 8 * q) by (nonlinear_arith)
                requires
                    q == if (pos + 3) % 8 == 0 {
                        (pos + 3) / 8
                    } else {
                        (pos + 3) / 8 + 1
                    },
            ;
        },
        CompressionType::FixedTree => {
            lemma_symbol_run_bounds(
                d,
                map_of(spec_entries::<LitLenToken>(spec_fixed_litlen_lengths(), 288)),
                map_of(spec_entries::<DistanceToken>(spec_fixed_distance_lengths(), 32)),
                wbase,
                pos + 3,
                w,
                mid,
                wmid,
            );
        },
        CompressionType::DynamicTree => {
            let (lens, dlens, pm): (Seq<u8>, Seq<u8>, int) = choose|
                lens: Seq<u8>,
                dlens: Seq<u8>,
                pm: int,
            |
                {
                    let nf = bits_value(d, pos + 13, 4) + 4;
                    let ml = meta_lens(d, pos + 17, nf as int);
                    &&& from_lengths_error(ml) is None
                    &&& from_lengths_error(lens) is None
                    &&& distance_lengths_error(dlens) is None
                    &&& lens.len() == bits_value(d, pos + 3, 5) + 257
                    &&& dlens.len() == bits_value(d, pos + 8, 5) + 1
                    &&& clen_run(
                        d,
                        map_of(
                            spec_entries::<TreeCodeToken>(
                                meta_lens(d, pos + 17, (bits_value(d, pos + 13, 4) + 4) as int),
                                19,
                            ),
                        ),
                        pos + 17 + 3 * nf,
                        Seq::empty(),
                        (lens.len() + dlens.len()) as int,
                        pm,
                        lens + dlens,
                    )
                    &&& #[trigger] symbol_run(
                        d,
                        map_of(spec_entries::<LitLenToken>(lens, lens.len() as int)),
                        map_of(spec_entries::<DistanceToken>(dlens, dlens.len() as int)),
                        wbase,
                        pm,
                        w,
                        mid,
                        wmid,
                    )
                };
            lemma_clen_run_bounds(
                d,
                map_of(
                    spec_entries::<TreeCodeToken>(
                        meta_lens(d, pos + 17, (bits_value(d, pos + 13, 4) + 4) as int),
                        19,
                    ),
                ),
                pos + 17 + 3 * (bits_value(d, pos + 13, 4) + 4),
                Seq::empty(),
                (lens.len() + dlens.len()) as int,
                pm,
                lens + dlens,
            );
            lemma_symbol_run_bounds(
                d,
                map_of(spec_entries::<LitLenToken>(lens, lens.len() as int)),
                map_of(spec_entries::<DistanceToken>(dlens, dlens.len() as int)),
                wbase,
                pm,
                w,
                mid,
                wmid,
            );
        },
        CompressionType::Reserved => {},
    }
}

/// A block's effect is deterministic: from one position, window and output
/// there is only one way a block can end, whatever its type.
pub proof fn lemma_block_body_deterministic(
    d: Seq<u8>,
    wbase: int,
    pos: int,
    w: Seq<u8>,
    mid1: int,
    wmid1: Seq<u8>,
    mid2: int,
    wmid2: Seq<u8>,
)
    requires
        block_body(d, wbase, pos, w, mid1, wmid1),
        block_body(d, wbase, pos, w, mid2, wmid2),
    ensures
        mid1 == mid2,
        wmid1 == wmid2,
{
    match spec_block_type(bits_value(d, pos + 1, 2)) {
        CompressionType::Uncompressed => {},
        CompressionType::FixedTree => {
            lemma_fixed_tables_accepted();
            lemma_symbol_run_deterministic(
                d,
                map_of(spec_entries::<LitLenToken>(spec_fixed_litlen_lengths(), 288)),
                map_of(spec_entries::<DistanceToken>(spec_fixed_distance_lengths(), 32)),
                wbase,
                pos + 3,
                w,
                mid1,
                wmid1,
                mid2,
                wmid2,
                spec_fixed_litlen_lengths(),
                spec_fixed_distance_lengths(),
            );
        },
        CompressionType::DynamicTree => {
            let (lensa, dlensa, pma): (Seq<u8>, Seq<u8>, int) = choose|
                lens: Seq<u8>,
                dlens: Seq<u8>,
                pm: int,
            |
                {
                    let nf = bits_value(d, pos + 13, 4) + 4;
                    let ml = meta_lens(d, pos + 17, nf as int);
                    &&& from_lengths_error(ml) is None
                    &&& from_lengths_error(lens) is None
                    &&& distance_lengths_error(dlens) is None
                    &&& lens.len() == bits_value(d, pos + 3, 5) + 257
                    &&& dlens.len() == bits_value(d, pos + 8, 5) + 1
                    &&& clen_run(
                        d,
                        map_of(
                            spec_entries::<TreeCodeToken>(
                                meta_lens(d, pos + 17, (bits_value(d, pos + 13, 4) + 4) as int),
                                19,
                            ),
                        ),
                        pos + 17 + 3 * nf,
                        Seq::empty(),
                        (lens.len() + dlens.len()) as int,
                        pm,
                        lens + dlens,
                    )
                    &&& #[trigger] symbol_run(
                        d,
                        map_of(spec_entries::<LitLenToken>(lens, lens.len() as int)),
                        map_of(spec_entries::<DistanceToken>(dlens, dlens.len() as int)),
                        wbase,
                        pm,
                        w,
                        mid1,
                        wmid1,
                    )
                };
            let (lensb, dlensb, pmb): (Seq<u8>, Seq<u8>, int) = choose|
                lens: Seq<u8>,
                dlens: Seq<u8>,
                pm: int,
            |
                {
                    let nf = bits_value(d, pos + 13, 4) + 4;
                    let ml = meta_lens(d, pos + 17, nf as int);
                    &&& from_lengths_error(ml) is None
                    &&& from_lengths_error(lens) is None
                    &&& distance_lengths_error(dlens) is None
                    &&& lens.len() == bits_value(d, pos + 3, 5) + 257
                    &&& dlens.len() == bits_value(d, pos + 8, 5) + 1
                    &&& clen_run(
                        d,
                        map_of(
                            spec_entries::<TreeCodeToken>(
                                meta_lens(d, pos + 17, (bits_value(d, pos + 13, 4) + 4) as int),
                                19,
                            ),
                        ),
                        pos + 17 + 3 * nf,
                        Seq::empty(),
                        (lens.len() + dlens.len()) as int,
                        pm,
                        lens + dlens,
                    )
                    &&& #[trigger] symbol_run(
                        d,
                        map_of(spec_entries::<LitLenToken>(lens, lens.len() as int)),
                        map_of(spec_entries::<DistanceToken>(dlens, dlens.len() as int)),
                        wbase,
                        pm,
                        w,
                        mid2,
                        wmid2,
                    )
                };
            let ghost_nf = (bits_value(d, pos + 13, 4) + 4) as int;
            let ghost_ml = meta_lens(d, pos + 17, ghost_nf);
            crate::bit_reader::lemma_bits_value_bound(d, pos + 13, 4);
            vstd::arithmetic::power2::lemma2_to64();
            lemma_meta_lens_len(d, pos + 17, ghost_nf);
            lemma_clen_run_deterministic(
                d,
                map_of(spec_entries::<TreeCodeToken>(ghost_ml, 19)),
                pos + 17 + 3 * ghost_nf,
                Seq::empty(),
                (lensa.len() + dlensa.len()) as int,
                pma,
                lensa + dlensa,
                pmb,
                lensb + dlensb,
                ghost_ml,
            );
            assert(pma == pmb);
            assert(lensa =~= (lensa + dlensa).take(lensa.len() as int));
            assert(lensb =~= (lensb + dlensb).take(lensb.len() as int));
            assert(dlensa =~= (lensa + dlensa).skip(lensa.len() as int));
            assert(dlensb =~= (lensb + dlensb).skip(lensb.len() as int));
            assert(lensa == lensb && dlensa == dlensb);
            lemma_symbol_run_deterministic(
                d,
                map_of(spec_entries::<LitLenToken>(lensa, lensa.len() as int)),
                map_of(spec_entries::<DistanceToken>(dlensa, dlensa.len() as int)),
                wbase,
                pma,
                w,
                mid1,
                wmid1,
                mid2,
                wmid2,
                lensa,
                dlensa,
            );
        },
        CompressionType::Reserved => {},
    }
}

/// A block run moves forward in the bit stream and only appends output.
pub proof fn lemma_block_run_bounds(
    d: Seq<u8>,
    wbase: int,
    pos: int,
    w: Seq<u8>,
    pos2: int,
    w2: Seq<u8>,
)
    requires
        block_run(d, wbase, pos, w, pos2, w2),
    ensures
        pos < pos2,
        w.len() <= w2.len(),
    decreases pos2 - pos,
{
    let (mid, wmid): (int, Seq<u8>) = choose|mid: int, wmid: Seq<u8>|
        {
            &&& #[trigger] block_body(d, wbase, pos, w, mid, wmid)
            &&& if bit_at(d, pos) == 1 {
                mid == pos2 && wmid == w2
            } else {
                pos < mid < pos2 && block_run(d, wbase, mid, wmid, pos2, w2)
            }
        };
    lemma_block_body_bounds(d, wbase, pos, w, mid, wmid);
    if bit_at(d, pos) != 1 {
        lemma_block_run_bounds(d, wbase, mid, wmid, pos2, w2);
    }
}

/// A block run is deterministic: every block's effect is, so from one
/// starting point the run can end only one way.
pub proof fn lemma_block_run_deterministic(
    d: Seq<u8>,
    wbase: int,
    pos: int,
    w: Seq<u8>,
    pos2a: int,
    w2a: Seq<u8>,
    pos2b: int,
    w2b: Seq<u8>,
)
    requires
        block_run(d, wbase, pos, w, pos2a, w2a),
        block_run(d, wbase, pos, w, pos2b, w2b),
    ensures
        pos2a == pos2b,
        w2a == w2b,
    decreases pos2a - pos,
{
    let (mida, wmida): (int, Seq<u8>) = choose|mid: int, wmid: Seq<u8>|
        {
            &&& #[trigger] block_body(d, wbase, pos, w, mid, wmid)
            &&& if bit_at(d, pos) == 1 {
                mid == pos2a && wmid == w2a
            } else {
                pos < mid < pos2a && block_run(d, wbase, mid, wmid, pos2a, w2a)
            }
        };
    let (midb, wmidb): (int, Seq<u8>) = choose|mid: int, wmid: Seq<u8>|
        {
            &&& #[trigger] block_body(d, wbase, pos, w, mid, wmid)
            &&& if bit_at(d, pos) == 1 {
                mid == pos2b && wmid == w2b
            } else {
                pos < mid < pos2b && block_run(d, wbase, mid, wmid, pos2b, w2b)
            }
        };
    lemma_block_body_deterministic(d, wbase, pos, w, mida, wmida, midb, wmidb);
    if bit_at(d, pos) != 1 {
        lemma_block_run_deterministic(d, wbase, mida, wmida, pos2a, w2a, pos2b, w2b);
    }
}

/// Every block a fitting run hypothesizes is one the decoder is forced to
/// decode: the type-specific success premise of reading that block holds.
pub proof fn lemma_block_step_fits(
    d: Seq<u8>,
    wbase: int,
    pos: int,
    w: Seq<u8>,
    mid: int,
    wmid: Seq<u8>,
    limit: int,
)
    requires
        pos >= 0,
        block_body(d, wbase, pos, w, mid, wmid),
        mid <= 8 * d.len(),
        wmid.len() <= limit,
    ensures
        pos + 3 <= 8 * d.len(),
        spec_block_type(bits_value(d, pos + 1, 2)) != CompressionType::Reserved,
        spec_block_type(bits_value(d, pos + 1, 2)) == CompressionType::Uncompressed ==> ({
            let q = spec_align_up(pos + 3);
            &&& q + 4 + le16(d, q) <= d.len()
            &&& le16(d, q + 2) == (le16(d, q) ^ 0xFFFFu16)
            &&& le16(d, q) <= limit - w.len()
        }),
        spec_block_type(bits_value(d, pos + 1, 2)) == CompressionType::FixedTree
            ==> symbol_run_fits(
            d,
            map_of(spec_entries::<LitLenToken>(spec_fixed_litlen_lengths(), 288)),
            map_of(spec_entries::<DistanceToken>(spec_fixed_distance_lengths(), 32)),
            wbase,
            pos + 3,
            w,
            limit,
        ),
        spec_block_type(bits_value(d, pos + 1, 2)) == CompressionType::DynamicTree
            ==> dynamic_block_fits(d, wbase, pos, w, limit),
{
    lemma_block_body_bounds(d, wbase, pos, w, mid, wmid);
    match spec_block_type(bits_value(d, pos + 1, 2)) {
        CompressionType::Uncompressed => {
            let q = spec_align_up(pos + 3);
            assert(q >= 0) by (nonlinear_arith)
                requires
                    pos >= 0,
                    q == if (pos + 3) % 8 == 0 {
                        (pos + 3) / 8
                    } else {
                        (pos + 3) / 8 + 1
                    },
            ;
            assert(q + 4 + le16(d, q) <= d.len());
            assert(wmid.len() == w.len() + le16(d, q));
        },
        CompressionType::FixedTree => {
            assert(symbol_run_fits(
                d,
                map_of(spec_entries::<LitLenToken>(spec_fixed_litlen_lengths(), 288)),
                map_of(spec_entries::<DistanceToken>(spec_fixed_distance_lengths(), 32)),
                wbase,
                pos + 3,
                w,
                limit,
            ));
        },
        CompressionType::DynamicTree => {
            let (lens, dlens, pm): (Seq<u8>, Seq<u8>, int) = choose|
                lens: Seq<u8>,
                dlens: Seq<u8>,
                pm: int,
            |
                {
                    let nf = bits_value(d, pos + 13, 4) + 4;
                    let ml = meta_lens(d, pos + 17, nf as int);
                    &&& from_lengths_error(ml) is None
                    &&& from_lengths_error(lens) is None
                    &&& distance_lengths_error(dlens) is None
                    &&& lens.len() == bits_value(d, pos + 3, 5) + 257
                    &&& dlens.len() == bits_value(d, pos + 8, 5) + 1
                    &&& clen_run(
                        d,
                        map_of(
                            spec_entries::<TreeCodeToken>(
                                meta_lens(d, pos + 17, (bits_value(d, pos + 13, 4) + 4) as int),
                                19,
                            ),
                        ),
                        pos + 17 + 3 * nf,
                        Seq::empty(),
                        (lens.len() + dlens.len()) as int,
                        pm,
                        lens + dlens,
                    )
                    &&& #[trigger] symbol_run(
                        d,
                        map_of(spec_entries::<LitLenToken>(lens, lens.len() as int)),
                        map_of(spec_entries::<DistanceToken>(dlens, dlens.len() as int)),
                        wbase,
                        pm,
                        w,
                        mid,
                        wmid,
                    )
                };
            lemma_symbol_run_bounds(
                d,
                map_of(spec_entries::<LitLenToken>(lens, lens.len() as int)),
                map_of(spec_entries::<DistanceToken>(dlens, dlens.len() as int)),
                wbase,
                pm,
                w,
                mid,
                wmid,
            );
            assert(symbol_run_fits(
                d,
                map_of(spec_entries::<LitLenToken>(lens, lens.len() as int)),
                map_of(spec_entries::<DistanceToken>(dlens, dlens.len() as int)),
                wbase,
                pm,
                w,
                limit,
            ));
            assert(dynamic_block_fits(d, wbase, pos, w, limit));
        },
        CompressionType::Reserved => {},
    }
}

/// Which block type a two-bit value names.
pub open spec fn spec_block_type(v: nat) -> CompressionType {
    if v == 0 {
        CompressionType::Uncompressed
    } else if v == 1 {
        CompressionType::FixedTree
    } else if v == 2 {
        CompressionType::DynamicTree
    } else {
        CompressionType::Reserved
    }
}

} // verus!
