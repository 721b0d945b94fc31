use bitvecs::{BitVec, BitVecError};

/// Builds a buffer holding the given bytes with only the first `len_bits`
/// bits valid, by popping the (zero) trailing bits one at a time.
fn buf_with_len(bytes: &[u8], len_bits: usize) -> BitVec {
    let mut bv = BitVec::from(bytes);
    while bv.len_bits() > len_bits {
        bv.pop_bit();
    }
    bv
}

#[test]
fn return_correct_bit() {
    let test_byte = BitVec::from(&[128, 1]);
    assert_eq!(test_byte.get_bit(0).unwrap(), true);
    assert_eq!(test_byte.get_bit(7).unwrap(), false);
    assert_eq!(test_byte.get_bit(8).unwrap(), false);
    assert_eq!(test_byte.get_bit(15).unwrap(), true);
}

#[test]
fn set_correct_bits() {
    let mut bv = BitVec::from(&[0]);
    bv.set_bit(0, true);
    assert_eq!(bv.export()[0], 128u8);
    bv.set_bit(7, true);
    assert_eq!(bv.export()[0], 129u8);
    bv.set_bit(0, false);
    assert_eq!(bv.export()[0], 1u8);
    bv.set_bit(20, true); // byte 2 = 0b00001000
    assert_eq!(bv.export()[2], 8u8);
}

#[test]
fn pop_last_byte() {
    // test vector: 0b01101010 0b101xxxxx (106, 160)
    // len = 11
    // expected result = 0b01010101 (85)
    let mut bv = buf_with_len(&[106, 160], 11);
    assert_eq!(bv.pop_byte().unwrap(), 85u8);
    assert_eq!(bv.len_bits(), 3);
    // remainder = 0b011xxxxx (96)
    assert_eq!(bv.pop_byte().unwrap(), 96u8);
}

#[test]
fn push_bits() {
    // Start with a byte of 0b00000010 (2)
    let mut bv = buf_with_len(&[2], 7);
    bv.push_bit(true);
    assert_eq!(bv.get_bit(7).unwrap(), true);
    assert_eq!(bv.len_bits(), 8);
    bv.push_bit(true);
    assert_eq!(bv.export()[1], 128u8);
}

#[test]
fn fill_vectors() {
    let mut bv1 = buf_with_len(&[0, 0], 12);
    bv1.fill(true);
    assert_eq!(bv1.export()[1], 240);
    let mut bv2 = buf_with_len(&[0, 0], 16);
    bv2.fill(true);
    assert_eq!(bv2.export()[1], 255);
}

#[test]
fn extend_bitvec() {
    // bv1 = 0b00001xxx
    let mut bv1 = buf_with_len(&[0x08], 5);
    // bv2 = 0b1011xxxx
    let bv2 = buf_with_len(&[0xB0], 4);
    // bv1 = 0b00001101 1xxxxxxx
    bv1.extend(&bv2);
    assert_eq!(bv1.export()[0], 13);
    assert_eq!(bv1.export()[1], 128);
    assert_eq!(bv1.len_bits(), 9);
}

#[test]
fn new_from_add() {
    // bv1 = 0b00001xxx
    let bv1 = buf_with_len(&[0x08], 5);
    // bv2 = 0b1011xxxx
    let bv2 = buf_with_len(&[0xB0], 4);
    // bv3 = 0b00001101 1xxxxxxx
    let bv3 = bv1.concat(&bv2);
    assert_eq!(bv3.export()[0], 13);
    assert_eq!(bv3.export()[1], 128);
    assert_eq!(bv3.len_bits(), 9);
}

#[test]
fn inverted_bytes() {
    // bv1 = 0b01101101
    let bv1 = buf_with_len(&[0x6D], 8);
    // bv2 = 0b10011xxx
    let bv2 = buf_with_len(&[0x98], 5);
    assert_eq!(bv1.compliment().export()[0], 0x92);
    assert_eq!(bv2.compliment().export()[0], 0x60);
}

#[test]
fn get_bit_out_of_range() {
    let bv = BitVec::from(&[0xFF]);
    assert_eq!(bv.get_bit(8), Err(BitVecError::IndexOutOfRange));
    let empty = BitVec::new();
    assert_eq!(empty.get_bit(0), Err(BitVecError::IndexOutOfRange));
}
