use std::io::Write;

use ripgzip::{decompress, Error, ErrorKind};

fn crc32(data: &[u8]) -> u32 {
    crc::Crc::<u32>::new(&crc::CRC_32_ISO_HDLC).checksum(data)
}

fn gzip_of(data: &[u8]) -> Vec<u8> {
    let mut enc = flate2::write::GzEncoder::new(Vec::new(), flate2::Compression::default());
    enc.write_all(data).unwrap();
    enc.finish().unwrap()
}

/// Builds a raw DEFLATE bit stream by hand: LSB-first packing, with
/// Huffman code words pushed first-bit-highest.
struct BitSink {
    bytes: Vec<u8>,
    cur: u8,
    n: u8,
}

impl BitSink {
    fn new() -> Self {
        BitSink { bytes: Vec::new(), cur: 0, n: 0 }
    }

    fn push_bit(&mut self, b: u8) {
        self.cur |= (b & 1) << self.n;
        self.n += 1;
        if self.n == 8 {
            self.bytes.push(self.cur);
            self.cur = 0;
            self.n = 0;
        }
    }

    fn push_lsb(&mut self, value: u32, count: u8) {
        for i in 0..count {
            self.push_bit(((value >> i) & 1) as u8);
        }
    }

    fn push_code_msb(&mut self, value: u32, count: u8) {
        for i in (0..count).rev() {
            self.push_bit(((value >> i) & 1) as u8);
        }
    }

    fn finish(mut self) -> Vec<u8> {
        if self.n > 0 {
            self.bytes.push(self.cur);
        }
        self.bytes
    }
}

fn fixed_litlen_code(symbol: u32) -> (u32, u8) {
    match symbol {
        0..=143 => (0x30 + symbol, 8),
        144..=255 => (0x190 + symbol - 144, 9),
        256..=279 => (symbol - 256, 7),
        _ => (0xC0 + symbol - 280, 8),
    }
}

/// A gzip member of `aaaaaa` as one fixed-Huffman block: the literal `a`,
/// then a length-5 back-reference at distance 1, then end-of-block.
fn fixed_overlap_fixture() -> Vec<u8> {
    let mut out: Vec<u8> = vec![0x1f, 0x8b, 8, 0, 0, 0, 0, 0, 0, 3];
    let mut bits = BitSink::new();
    bits.push_bit(1); // BFINAL
    bits.push_lsb(1, 2); // fixed-Huffman block
    let (c, n) = fixed_litlen_code(b'a' as u32);
    bits.push_code_msb(c, n);
    let (c, n) = fixed_litlen_code(259); // match length 5
    bits.push_code_msb(c, n);
    bits.push_code_msb(0, 5); // distance symbol 0: distance 1
    let (c, n) = fixed_litlen_code(256); // end of block
    bits.push_code_msb(c, n);
    out.extend_from_slice(&bits.finish());
    out.extend_from_slice(&crc32(b"aaaaaa").to_le_bytes());
    out.extend_from_slice(&6u32.to_le_bytes());
    out
}

/// A gzip member of `hi` as one stored block, FLG = 0.
fn stored_fixture() -> Vec<u8> {
    let mut out: Vec<u8> = vec![0x1f, 0x8b, 8, 0, 0, 0, 0, 0, 0, 3];
    out.push(0x01); // BFINAL = 1, stored
    out.extend_from_slice(&2u16.to_le_bytes());
    out.extend_from_slice(&0xFFFDu16.to_le_bytes());
    out.extend_from_slice(b"hi");
    out.extend_from_slice(&crc32(b"hi").to_le_bytes());
    out.extend_from_slice(&2u32.to_le_bytes());
    out
}

/// A gzip member of `hi` carrying a header CRC16 (FHCRC set).
fn fhcrc_fixture() -> Vec<u8> {
    let header: [u8; 10] = [0x1f, 0x8b, 8, 0x02, 0, 0, 0, 0, 0, 3];
    let mut out: Vec<u8> = header.to_vec();
    let c16 = (crc32(&header) & 0xffff) as u16;
    out.extend_from_slice(&c16.to_le_bytes());
    out.push(0x01);
    out.extend_from_slice(&2u16.to_le_bytes());
    out.extend_from_slice(&0xFFFDu16.to_le_bytes());
    out.extend_from_slice(b"hi");
    out.extend_from_slice(&crc32(b"hi").to_le_bytes());
    out.extend_from_slice(&2u32.to_le_bytes());
    out
}

// The twenty-byte empty member decodes to the empty output.
#[test]
fn empty_member() {
    let input: Vec<u8> = vec![
        0x1f, 0x8b, 0x08, 0x00, 0x00, 0x00, 0x00, 0x00, 0x00, 0x03, 0x03, 0x00, 0x00, 0x00, 0x00,
        0x00, 0x00, 0x00, 0x00, 0x00,
    ];
    assert_eq!(decompress(input).unwrap(), Vec::<u8>::new());
}

// A single stored block over the literal string `hi`.
#[test]
fn single_stored_block() {
    assert_eq!(decompress(stored_fixture()).unwrap(), b"hi".to_vec());
}

// Fixed Huffman with an overlapping back-reference: L = 5, D = 1 over one
// written `a` expands to five more copies.
#[test]
fn fixed_huffman_overlapping_back_reference() {
    assert_eq!(decompress(fixed_overlap_fixture()).unwrap(), b"aaaaaa".to_vec());
}

// Realistic text through a well-known encoder decodes byte-for-byte.
#[test]
fn dynamic_huffman_realistic_text() {
    let text = b"The quick brown fox jumps over the lazy dog.\n";
    assert_eq!(decompress(gzip_of(text)).unwrap(), text.to_vec());
}

// Decode identity over a corpus that exercises dynamic blocks, long
// repetitions and distances reaching the full 32 KiB window.
#[test]
fn decode_identity_large() {
    let mut data: Vec<u8> = Vec::new();
    let sentence = b"The quick brown fox jumps over the lazy dog. ";
    while data.len() < 40000 {
        data.extend_from_slice(sentence);
        let marker = (data.len() as u32).to_le_bytes();
        data.extend_from_slice(&marker);
    }
    // a block repeated at a distance close to the window size
    let head: Vec<u8> = data[..200].to_vec();
    data.extend_from_slice(&head);
    assert_eq!(decompress(gzip_of(&data)).unwrap(), data);
}

#[test]
fn decode_identity_best_compression() {
    let mut enc = flate2::write::GzEncoder::new(Vec::new(), flate2::Compression::best());
    let data: Vec<u8> = (0..2048u32).map(|i| (i % 251) as u8).collect();
    enc.write_all(&data).unwrap();
    let packed = enc.finish().unwrap();
    assert_eq!(decompress(packed).unwrap(), data);
}

// Two concatenated members decode to the concatenation; the second
// member's window starts empty.
#[test]
fn concatenated_members() {
    let mut input = gzip_of(b"foo");
    input.extend_from_slice(&gzip_of(b"bar"));
    assert_eq!(decompress(input).unwrap(), b"foobar".to_vec());
}

// One flipped bit in the first member's CRC-32 footer turns the previous
// scenario into invalid data.
#[test]
fn corrupted_crc() {
    let first = gzip_of(b"foo");
    let mut input = first.clone();
    let crc_pos = first.len() - 8;
    input[crc_pos] ^= 0x10;
    input.extend_from_slice(&gzip_of(b"bar"));
    assert_eq!(decompress(input), Err(Error::InvalidData(ErrorKind::FooterCrcMismatch)));
}

// Mutating one byte of CRC-32 or ISIZE causes invalid data; truncating the
// footer causes an unexpected end of input.
#[test]
fn trailer_validation() {
    let good = stored_fixture();

    let mut bad_crc = good.clone();
    let n = bad_crc.len();
    bad_crc[n - 6] ^= 0xFF;
    assert_eq!(decompress(bad_crc), Err(Error::InvalidData(ErrorKind::FooterCrcMismatch)));

    let mut bad_size = good.clone();
    bad_size[n - 2] ^= 0x01;
    assert_eq!(
        decompress(bad_size),
        Err(Error::InvalidData(ErrorKind::FooterLengthMismatch))
    );

    let mut truncated = good.clone();
    truncated.truncate(n - 3);
    assert_eq!(decompress(truncated), Err(Error::UnexpectedEof));
}

// With FHCRC set, a flipped header byte fails the header CRC; clearing
// FHCRC in the same corrupted file leads to a later structural error
// instead.
#[test]
fn header_crc_detects_flip() {
    let good = fhcrc_fixture();
    assert_eq!(decompress(good.clone()).unwrap(), b"hi".to_vec());

    let mut flipped = good.clone();
    flipped[8] ^= 0x40; // inside OS/XFL region, still covered by the CRC16
    assert_eq!(
        decompress(flipped.clone()),
        Err(Error::InvalidData(ErrorKind::HeaderCrcMismatch))
    );

    let mut cleared = flipped.clone();
    cleared[3] = 0; // FHCRC off: the stored CRC16 bytes become block data
    let r = decompress(cleared);
    assert!(r.is_err());
    assert_ne!(r, Err(Error::InvalidData(ErrorKind::HeaderCrcMismatch)));
}

#[test]
fn header_errors() {
    assert_eq!(
        decompress(vec![0x1d, 0x8b, 8, 0, 0, 0, 0, 0, 0, 3]),
        Err(Error::InvalidData(ErrorKind::BadMagic))
    );
    assert_eq!(
        decompress(vec![0x1f, 0x8b, 7, 0, 0, 0, 0, 0, 0, 3]),
        Err(Error::Unsupported(ErrorKind::BadCompressionMethod))
    );
    assert_eq!(
        decompress(vec![0x1f, 0x8b, 8, 0x20, 0, 0, 0, 0, 0, 3]),
        Err(Error::InvalidData(ErrorKind::ReservedFlagBits))
    );
    assert_eq!(decompress(vec![0x1f, 0x8b, 8]), Err(Error::UnexpectedEof));
}

#[test]
fn reserved_block_type() {
    let mut input: Vec<u8> = vec![0x1f, 0x8b, 8, 0, 0, 0, 0, 0, 0, 3];
    input.push(0x07); // BFINAL = 1, block type 3
    input.extend_from_slice(&[0, 0, 0, 0, 0, 0, 0, 0]);
    assert_eq!(decompress(input), Err(Error::InvalidData(ErrorKind::ReservedBlockType)));
}

#[test]
fn stored_length_mismatch() {
    let mut input: Vec<u8> = vec![0x1f, 0x8b, 8, 0, 0, 0, 0, 0, 0, 3];
    input.push(0x01);
    input.extend_from_slice(&2u16.to_le_bytes());
    input.extend_from_slice(&0xFFFCu16.to_le_bytes()); // wrong complement
    input.extend_from_slice(b"hi");
    input.extend_from_slice(&crc32(b"hi").to_le_bytes());
    input.extend_from_slice(&2u32.to_le_bytes());
    assert_eq!(decompress(input), Err(Error::InvalidData(ErrorKind::StoredLengthMismatch)));
}

#[test]
fn distance_too_far_back() {
    // a back-reference with nothing yet written
    let mut out: Vec<u8> = vec![0x1f, 0x8b, 8, 0, 0, 0, 0, 0, 0, 3];
    let mut bits = BitSink::new();
    bits.push_bit(1);
    bits.push_lsb(1, 2);
    let (c, n) = fixed_litlen_code(257); // length 3
    bits.push_code_msb(c, n);
    bits.push_code_msb(0, 5); // distance 1, but the window is empty
    let (c, n) = fixed_litlen_code(256);
    bits.push_code_msb(c, n);
    out.extend_from_slice(&bits.finish());
    out.extend_from_slice(&[0, 0, 0, 0, 0, 0, 0, 0]);
    assert_eq!(decompress(out), Err(Error::InvalidData(ErrorKind::DistanceTooFarBack)));
}

// Header name field: UTF-8 text passes through, other bytes are rejected.
#[test]
fn header_name_utf8_policy() {
    let mut named: Vec<u8> = vec![0x1f, 0x8b, 8, 0x08, 0, 0, 0, 0, 0, 3];
    named.extend_from_slice(b"file.txt\0");
    named.push(0x01);
    named.extend_from_slice(&2u16.to_le_bytes());
    named.extend_from_slice(&0xFFFDu16.to_le_bytes());
    named.extend_from_slice(b"hi");
    named.extend_from_slice(&crc32(b"hi").to_le_bytes());
    named.extend_from_slice(&2u32.to_le_bytes());
    assert_eq!(decompress(named.clone()).unwrap(), b"hi".to_vec());

    let mut bad = named.clone();
    bad[10] = 0xFF; // not valid UTF-8
    assert_eq!(decompress(bad), Err(Error::InvalidData(ErrorKind::HeaderNotUtf8)));
}

// A reserved literal/length symbol's code word never matches, so decoding
// it is invalid data.
#[test]
fn reserved_litlen_symbol() {
    let mut out: Vec<u8> = vec![0x1f, 0x8b, 8, 0, 0, 0, 0, 0, 0, 3];
    let mut bits = BitSink::new();
    bits.push_bit(1);
    bits.push_lsb(1, 2); // fixed-Huffman block
    bits.push_code_msb(0xC6, 8); // the reserved code word 286
    for _ in 0..16 {
        bits.push_bit(1);
    }
    out.extend_from_slice(&bits.finish());
    out.extend_from_slice(&[0, 0, 0, 0, 0, 0, 0, 0]);
    assert_eq!(decompress(out), Err(Error::InvalidData(ErrorKind::BadHuffmanCode)));
}

/// The preamble of a dynamic block whose code-length alphabet assigns
/// one-bit codes to symbol `special` (code 1) and symbol 0 (code 0),
/// with HLIT = HDIST = 0.
fn dynamic_preamble(bits: &mut BitSink, special: u32) {
    bits.push_bit(1); // BFINAL
    bits.push_lsb(2, 2); // dynamic block
    bits.push_lsb(0, 5); // HLIT
    bits.push_lsb(0, 5); // HDIST
    bits.push_lsb(15, 4); // HCLEN: all 19 code-length lengths follow
    // permutation order: 16 17 18 0 8 7 9 6 10 5 11 4 12 3 13 2 14 1 15
    let order: [u32; 19] = [16, 17, 18, 0, 8, 7, 9, 6, 10, 5, 11, 4, 12, 3, 13, 2, 14, 1, 15];
    for sym in order {
        let len: u32 = if sym == special || sym == 0 { 1 } else { 0 };
        bits.push_lsb(len, 3);
    }
}

// The code-length meta-symbol that repeats the previous length is invalid
// when nothing has been emitted yet.
#[test]
fn repeat_without_previous_length() {
    let mut out: Vec<u8> = vec![0x1f, 0x8b, 8, 0, 0, 0, 0, 0, 0, 3];
    let mut bits = BitSink::new();
    dynamic_preamble(&mut bits, 16);
    bits.push_code_msb(1, 1); // meta-symbol 16: copy the previous length
    bits.push_lsb(0, 2); // its two extra bits
    for _ in 0..16 {
        bits.push_bit(0);
    }
    out.extend_from_slice(&bits.finish());
    out.extend_from_slice(&[0, 0, 0, 0, 0, 0, 0, 0]);
    assert_eq!(
        decompress(out),
        Err(Error::InvalidData(ErrorKind::NoPreviousCodeLength))
    );
}

// A zero-run that runs past the combined literal/length and distance
// boundary is invalid data.
#[test]
fn code_length_overrun() {
    let mut out: Vec<u8> = vec![0x1f, 0x8b, 8, 0, 0, 0, 0, 0, 0, 3];
    let mut bits = BitSink::new();
    dynamic_preamble(&mut bits, 18);
    // two maximal zero runs cover 276 lengths, past the 258 expected
    bits.push_code_msb(1, 1); // meta-symbol 18
    bits.push_lsb(127, 7); // 138 zeros
    bits.push_code_msb(1, 1);
    bits.push_lsb(127, 7); // 138 more
    for _ in 0..16 {
        bits.push_bit(0);
    }
    out.extend_from_slice(&bits.finish());
    out.extend_from_slice(&[0, 0, 0, 0, 0, 0, 0, 0]);
    assert_eq!(decompress(out), Err(Error::InvalidData(ErrorKind::CodeLengthOverrun)));
}

// Multi-block streams: sync flushes force block boundaries inside one
// member.
#[test]
fn multi_block_stream() {
    let mut enc = flate2::write::GzEncoder::new(Vec::new(), flate2::Compression::default());
    enc.write_all(b"first block ").unwrap();
    enc.flush().unwrap();
    enc.write_all(b"second block").unwrap();
    let packed = enc.finish().unwrap();
    assert_eq!(decompress(packed).unwrap(), b"first block second block".to_vec());
}
