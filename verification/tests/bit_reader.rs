use ripgzip::bit_reader::{BitReader, BitSequence};
use ripgzip::Error;

#[test]
fn read_bits() {
    let data: Vec<u8> = vec![0b01100011, 0b11011011, 0b10101111];
    let mut reader = BitReader::new(data);
    assert_eq!(reader.read_bits(1).unwrap(), BitSequence::new(0b1, 1));
    assert_eq!(reader.read_bits(2).unwrap(), BitSequence::new(0b01, 2));
    assert_eq!(reader.read_bits(3).unwrap(), BitSequence::new(0b100, 3));
    assert_eq!(reader.read_bits(4).unwrap(), BitSequence::new(0b1101, 4));
    assert_eq!(reader.read_bits(5).unwrap(), BitSequence::new(0b10110, 5));
    assert_eq!(reader.read_bits(8).unwrap(), BitSequence::new(0b01011111, 8));
    assert_eq!(reader.read_bits(2), Err(Error::UnexpectedEof));
}

#[test]
fn borrow_reader_from_boundary() {
    let data: Vec<u8> = vec![0b01100011, 0b11011011, 0b10101111];
    let mut reader = BitReader::new(data);
    assert_eq!(reader.read_bits(3).unwrap(), BitSequence::new(0b011, 3));
    assert_eq!(reader.borrow_reader_from_boundary().read_u8().unwrap(), 0b11011011);
    assert_eq!(reader.read_bits(8).unwrap(), BitSequence::new(0b10101111, 8));
}

// Bit-reader identity: for a byte array and a partition of its bits into
// chunks, the chunks reassemble to the LSB-first expansion of the bytes.
#[test]
fn bit_reader_identity_partition() {
    let data: Vec<u8> = vec![0xA5, 0x3C, 0x77];
    let total: u64 = (data[0] as u64) | ((data[1] as u64) << 8) | ((data[2] as u64) << 16);
    let chunks: [u8; 5] = [3, 5, 7, 0, 9];
    let mut reader = BitReader::new(data);
    let mut assembled: u64 = 0;
    let mut shift: u32 = 0;
    for k in chunks {
        let bs = reader.read_bits(k).unwrap();
        assert_eq!(bs.len(), k);
        assembled |= (bs.bits() as u64) << shift;
        shift += k as u32;
    }
    assert_eq!(shift, 24);
    assert_eq!(assembled, total);
    assert_eq!(reader.read_bits(1), Err(Error::UnexpectedEof));
}

#[test]
fn read_u32_is_le() {
    let data: Vec<u8> = vec![0x78, 0x56, 0x34, 0x12];
    let mut reader = BitReader::new(data);
    assert_eq!(reader.read_u32().unwrap(), 0x12345678);
}

// Construction masks the unused high bits to zero, so equality on the pair
// compares only the bits that belong to the group.
#[test]
fn new_masks_high_bits() {
    assert_eq!(BitSequence::new(0xFFFF, 3).bits(), 0b111);
    assert_eq!(BitSequence::new(0b10101, 3).bits(), 0b101);
    assert_eq!(BitSequence::new(0xFFFF, 0).bits(), 0);
    assert_eq!(BitSequence::new(0xFFFF, 16).bits(), 0xFFFF);
    assert_eq!(BitSequence::new(0b10101, 3), BitSequence::new(0b00101, 3));
}

#[test]
fn concat_orders_first_read_high() {
    let a = BitSequence::new(0b101, 3);
    let b = BitSequence::new(0b01, 2);
    let c = a.concat(b);
    assert_eq!(c.len(), 5);
    assert_eq!(c.bits(), 0b10101);
}
