use ripgzip::bit_reader::{BitReader, BitSequence};
use ripgzip::deflate::huffman_coding::{DistanceToken, HuffmanCoding, LitLenToken};
use ripgzip::{Error, ErrorKind};

fn lit(v: u8) -> LitLenToken {
    LitLenToken::Literal(v)
}

#[test]
fn from_lengths() {
    let code = HuffmanCoding::<LitLenToken>::from_lengths(&[2, 3, 4, 3, 3, 4, 2]).unwrap();

    assert_eq!(code.decode_symbol(BitSequence::new(0b00, 2)), Some(lit(0)));
    assert_eq!(code.decode_symbol(BitSequence::new(0b100, 3)), Some(lit(1)));
    assert_eq!(code.decode_symbol(BitSequence::new(0b1110, 4)), Some(lit(2)));
    assert_eq!(code.decode_symbol(BitSequence::new(0b101, 3)), Some(lit(3)));
    assert_eq!(code.decode_symbol(BitSequence::new(0b110, 3)), Some(lit(4)));
    assert_eq!(code.decode_symbol(BitSequence::new(0b1111, 4)), Some(lit(5)));
    assert_eq!(code.decode_symbol(BitSequence::new(0b01, 2)), Some(lit(6)));

    assert_eq!(code.decode_symbol(BitSequence::new(0b0, 1)), None);
    assert_eq!(code.decode_symbol(BitSequence::new(0b10, 2)), None);
    assert_eq!(code.decode_symbol(BitSequence::new(0b111, 3)), None);
}

#[test]
fn read_symbol() {
    let code = HuffmanCoding::<LitLenToken>::from_lengths(&[2, 3, 4, 3, 3, 4, 2]).unwrap();
    let data: Vec<u8> = vec![0b10111001, 0b11001010, 0b11101101];
    let mut reader = BitReader::new(data);

    assert_eq!(code.read_symbol(&mut reader).unwrap(), lit(1));
    assert_eq!(code.read_symbol(&mut reader).unwrap(), lit(2));
    assert_eq!(code.read_symbol(&mut reader).unwrap(), lit(3));
    assert_eq!(code.read_symbol(&mut reader).unwrap(), lit(6));
    assert_eq!(code.read_symbol(&mut reader).unwrap(), lit(0));
    assert_eq!(code.read_symbol(&mut reader).unwrap(), lit(2));
    assert_eq!(code.read_symbol(&mut reader).unwrap(), lit(4));
    assert!(code.read_symbol(&mut reader).is_err());
}

// The canonical construction validates the Kraft sum, so this length table
// (whose codes cover less than half of the code space) is rejected as
// incomplete rather than silently accepted.
#[test]
fn from_lengths_with_zeros() {
    let lengths = [3u8, 4, 5, 5, 0, 0, 6, 6, 4, 0, 6, 0, 7];
    let r = HuffmanCoding::<LitLenToken>::from_lengths(&lengths);
    assert_eq!(r.err(), Some(Error::InvalidData(ErrorKind::IncompleteCode)));
}

#[test]
fn from_lengths_additional() {
    let lengths = [
        9u8, 10, 10, 8, 8, 8, 5, 6, 4, 5, 4, 5, 4, 5, 4, 4, 5, 4, 4, 5, 4, 5, 4, 5, 5, 5, 4, 6, 6,
    ];
    let code = HuffmanCoding::<LitLenToken>::from_lengths(&lengths).unwrap();
    let data: Vec<u8> = vec![
        0b11111000, 0b10111100, 0b01010001, 0b11111111, 0b00110101, 0b11111001, 0b11011111,
        0b11100001, 0b01110111, 0b10011111, 0b10111111, 0b00110100, 0b10111010, 0b11111111,
        0b11111101, 0b10010100, 0b11001110, 0b01000011, 0b11100111, 0b00000010,
    ];
    let mut reader = BitReader::new(data);

    assert_eq!(code.read_symbol(&mut reader).unwrap(), lit(10));
    assert_eq!(code.read_symbol(&mut reader).unwrap(), lit(7));
    assert_eq!(code.read_symbol(&mut reader).unwrap(), lit(27));
    assert_eq!(code.read_symbol(&mut reader).unwrap(), lit(22));
    assert_eq!(code.read_symbol(&mut reader).unwrap(), lit(9));
    assert_eq!(code.read_symbol(&mut reader).unwrap(), lit(0));
    assert_eq!(code.read_symbol(&mut reader).unwrap(), lit(11));
    assert_eq!(code.read_symbol(&mut reader).unwrap(), lit(15));
    assert_eq!(code.read_symbol(&mut reader).unwrap(), lit(2));
    assert_eq!(code.read_symbol(&mut reader).unwrap(), lit(20));
    assert_eq!(code.read_symbol(&mut reader).unwrap(), lit(8));
    assert_eq!(code.read_symbol(&mut reader).unwrap(), lit(4));
    assert_eq!(code.read_symbol(&mut reader).unwrap(), lit(23));
    assert_eq!(code.read_symbol(&mut reader).unwrap(), lit(24));
    assert_eq!(code.read_symbol(&mut reader).unwrap(), lit(5));
    assert_eq!(code.read_symbol(&mut reader).unwrap(), lit(26));
    assert_eq!(code.read_symbol(&mut reader).unwrap(), lit(18));
    assert_eq!(code.read_symbol(&mut reader).unwrap(), lit(12));
    assert_eq!(code.read_symbol(&mut reader).unwrap(), lit(25));
    assert_eq!(code.read_symbol(&mut reader).unwrap(), lit(1));
    assert_eq!(code.read_symbol(&mut reader).unwrap(), lit(3));
    assert_eq!(code.read_symbol(&mut reader).unwrap(), lit(6));
    assert_eq!(code.read_symbol(&mut reader).unwrap(), lit(13));
    assert_eq!(code.read_symbol(&mut reader).unwrap(), lit(14));
    assert_eq!(code.read_symbol(&mut reader).unwrap(), lit(16));
    assert_eq!(code.read_symbol(&mut reader).unwrap(), lit(17));
    assert_eq!(code.read_symbol(&mut reader).unwrap(), lit(19));
    assert_eq!(code.read_symbol(&mut reader).unwrap(), lit(21));
}

// Kraft-sum validation: an oversubscribed table and an incomplete table are
// both rejected; a full table is accepted, and the lone one-bit code only
// through the distance-tree entry point.
#[test]
fn kraft_validation() {
    let over = HuffmanCoding::<LitLenToken>::from_lengths(&[1, 1, 1]);
    assert_eq!(over.err(), Some(Error::InvalidData(ErrorKind::OversubscribedCode)));

    let incomplete = HuffmanCoding::<LitLenToken>::from_lengths(&[2, 2, 2]);
    assert_eq!(incomplete.err(), Some(Error::InvalidData(ErrorKind::IncompleteCode)));

    let single_deep = HuffmanCoding::<LitLenToken>::from_lengths(&[3]);
    assert_eq!(single_deep.err(), Some(Error::InvalidData(ErrorKind::IncompleteCode)));

    let too_long = HuffmanCoding::<LitLenToken>::from_lengths(&[16]);
    assert_eq!(too_long.err(), Some(Error::InvalidData(ErrorKind::CodeLengthTooLong)));

    let many = vec![0u8; 65537];
    assert_eq!(
        HuffmanCoding::<LitLenToken>::from_lengths(&many).err(),
        Some(Error::InvalidData(ErrorKind::TooManySymbols))
    );

    assert!(HuffmanCoding::<LitLenToken>::from_lengths(&[1, 1]).is_ok());
    assert!(HuffmanCoding::<LitLenToken>::from_lengths(&[]).is_ok());
    // a lone one-bit code is incomplete for the literal/length alphabet
    assert_eq!(
        HuffmanCoding::<LitLenToken>::from_lengths(&[1]).err(),
        Some(Error::InvalidData(ErrorKind::IncompleteCode))
    );
    assert_eq!(
        HuffmanCoding::<LitLenToken>::from_lengths(&[0, 1, 0]).err(),
        Some(Error::InvalidData(ErrorKind::IncompleteCode))
    );
}

// The degenerate distance table the RFC permits: exactly one one-bit code is
// accepted by the distance-tree entry point, and only there; everything
// incomplete beyond that stays rejected.
#[test]
fn distance_tree_lone_code() {
    let lone = HuffmanCoding::<DistanceToken>::from_lengths_distance(&[1]).unwrap();
    assert_eq!(
        lone.decode_symbol(BitSequence::new(0, 1)),
        Some(DistanceToken { base: 1, extra_bits: 0 })
    );
    assert_eq!(lone.decode_symbol(BitSequence::new(1, 1)), None);

    assert!(HuffmanCoding::<DistanceToken>::from_lengths_distance(&[0, 1, 0]).is_ok());
    assert!(HuffmanCoding::<DistanceToken>::from_lengths_distance(&[]).is_ok());
    assert!(HuffmanCoding::<DistanceToken>::from_lengths_distance(&[1, 1]).is_ok());

    // two two-bit codes are incomplete even for a distance tree
    assert_eq!(
        HuffmanCoding::<DistanceToken>::from_lengths_distance(&[2, 2]).err(),
        Some(Error::InvalidData(ErrorKind::IncompleteCode))
    );
    // a lone code deeper than one bit is not the permitted degenerate table
    assert_eq!(
        HuffmanCoding::<DistanceToken>::from_lengths_distance(&[2]).err(),
        Some(Error::InvalidData(ErrorKind::IncompleteCode))
    );
    // the plain entry point refuses the lone one-bit code for distances too
    assert_eq!(
        HuffmanCoding::<DistanceToken>::from_lengths(&[1]).err(),
        Some(Error::InvalidData(ErrorKind::IncompleteCode))
    );
}

// Huffman round trip on every present symbol of a mixed-length table.
#[test]
fn huffman_round_trip_all_symbols() {
    let lengths = [2u8, 3, 4, 3, 3, 4, 2];
    let code = HuffmanCoding::<LitLenToken>::from_lengths(&lengths).unwrap();
    let canonical: [(u16, u8); 7] =
        [(0b00, 2), (0b100, 3), (0b1110, 4), (0b101, 3), (0b110, 3), (0b1111, 4), (0b01, 2)];
    for (s, (bits, len)) in canonical.iter().enumerate() {
        assert_eq!(code.decode_symbol(BitSequence::new(*bits, *len)), Some(lit(s as u8)));
    }
}
