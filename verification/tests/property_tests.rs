use bitvecs::BitVec;

/// Builds a buffer holding the given bytes with only the first `len_bits`
/// bits valid.
fn partial(bytes: &[u8], len_bits: usize) -> BitVec {
    let mut bv = BitVec::from(bytes);
    while bv.len_bits() > len_bits {
        bv.pop_bit();
    }
    bv
}

#[test]
fn new_and_with_capacity_are_empty() {
    let a = BitVec::new();
    assert_eq!(a.len_bits(), 0);
    assert_eq!(a.len(), 0);
    assert!(a.is_zero());
    let b = BitVec::with_capacity(24);
    assert_eq!(b.len_bits(), 0);
    assert_eq!(b.len(), 0);
}

#[test]
fn set_then_get_roundtrip() {
    let mut bv = BitVec::from(&[0, 0]);
    bv.set_bit(10, true);
    assert_eq!(bv.get_bit(10).unwrap(), true);
    bv.set_bit(10, false);
    assert_eq!(bv.get_bit(10).unwrap(), false);
}

#[test]
fn push_then_pop_roundtrip() {
    let mut bv = partial(&[0xA0], 3);
    let before = bv.len_bits();
    bv.push_bit(true);
    assert_eq!(bv.pop_bit(), Some(true));
    assert_eq!(bv.len_bits(), before);
    bv.push_bit(false);
    assert_eq!(bv.pop_bit(), Some(false));
    assert_eq!(bv.len_bits(), before);
}

#[test]
fn pop_bit_empty_returns_none() {
    let mut bv = BitVec::new();
    assert_eq!(bv.pop_bit(), None);
}

#[test]
fn extend_keeps_both_operands_bits() {
    let a = partial(&[0b10100000], 3);
    let b = partial(&[0b01100000], 4);
    let mut c = a.concat(&b);
    assert_eq!(c.len_bits(), 7);
    // bits of a at their old indices
    assert_eq!(c.get_bit(0).unwrap(), true);
    assert_eq!(c.get_bit(1).unwrap(), false);
    assert_eq!(c.get_bit(2).unwrap(), true);
    // bits of b shifted up by a's length
    assert_eq!(c.get_bit(3).unwrap(), false);
    assert_eq!(c.get_bit(4).unwrap(), true);
    assert_eq!(c.get_bit(5).unwrap(), true);
    assert_eq!(c.get_bit(6).unwrap(), false);
    // extending with an aligned buffer appends its bytes whole
    c.extend(&BitVec::from(&[0xFF]));
    assert_eq!(c.len_bits(), 15);
    assert_eq!(c.get_bit(7).unwrap(), true);
    assert_eq!(c.get_bit(14).unwrap(), true);
}

#[test]
fn complement_twice_restores() {
    let bv = partial(&[0x98, 0x6D], 13);
    let twice = bv.compliment().compliment();
    assert_eq!(twice.len_bits(), bv.len_bits());
    assert_eq!(twice.export(), bv.export());
}

#[test]
fn many_pushes_keep_content() {
    let mut bv = BitVec::new();
    let mut i: usize = 0;
    while i < 1000 {
        bv.push_bit(i % 3 == 0);
        i += 1;
    }
    assert_eq!(bv.len_bits(), 1000);
    let mut j: usize = 0;
    while j < 1000 {
        assert_eq!(bv.get_bit(j).unwrap(), j % 3 == 0);
        j += 1;
    }
}

#[test]
fn next_set_bit_finds_smallest() {
    // 0b00000000 0b00100001
    let bv = BitVec::from(&[0x00, 0x21]);
    assert_eq!(bv.next_set_bit(0), Some(10));
    assert_eq!(bv.next_set_bit(10), Some(10));
    assert_eq!(bv.next_set_bit(11), Some(15));
    assert_eq!(bv.next_set_bit(16), None);
    let zeros = BitVec::from(&[0, 0, 0]);
    assert_eq!(zeros.next_set_bit(0), None);
}

#[test]
fn push_byte_splits_across_boundary() {
    let mut bv = partial(&[0b10100000], 3);
    bv.push_byte(0xFF);
    assert_eq!(bv.len_bits(), 11);
    let bytes = bv.export();
    assert_eq!(bytes[0], 0b10111111);
    assert_eq!(bytes[1], 0b11100000);
}

#[test]
fn pop_byte_aligned_and_empty() {
    let mut bv = BitVec::from(&[0xAB, 0xCD]);
    assert_eq!(bv.pop_byte(), Some(0xCD));
    assert_eq!(bv.len_bits(), 8);
    assert_eq!(bv.pop_byte(), Some(0xAB));
    assert_eq!(bv.len_bits(), 0);
    assert_eq!(bv.pop_byte(), None);
}

#[test]
fn pop_vec_byte_truncates_to_byte_boundary() {
    let mut bv = partial(&[0x6A, 0xA0], 11);
    assert_eq!(bv.pop_vec_byte(), Some(0xA0));
    assert_eq!(bv.len_bits(), 8);
    assert_eq!(bv.export(), vec![0x6A]);
    let mut aligned = BitVec::from(&[1, 2]);
    assert_eq!(aligned.pop_vec_byte(), Some(2));
    assert_eq!(aligned.len_bits(), 8);
    let mut empty = BitVec::new();
    assert_eq!(empty.pop_vec_byte(), None);
}

#[test]
fn pop_full_byte_matches_pop_vec_byte() {
    let mut bv = BitVec::from(&[7, 9]);
    let got = bv.pop_full_byte();
    assert_eq!(got, Some(9));
    assert_eq!(bv.len_bits(), 8);
}

#[test]
fn sequential_reads_walk_the_buffer() {
    // 0b10110000, 5 valid bits
    let mut bv = partial(&[0xB0], 5);
    assert_eq!(bv.get_read_position(), 0);
    assert_eq!(bv.seq_read(), Some(1));
    assert_eq!(bv.seq_read(), Some(0));
    assert_eq!(bv.seq_read(), Some(1));
    assert_eq!(bv.seq_read(), Some(1));
    assert_eq!(bv.get_read_position(), 4);
    assert_eq!(bv.seq_read(), Some(0));
    assert_eq!(bv.seq_read(), None);
    assert_eq!(bv.get_read_position(), 5);
    bv.reset_seq_read();
    assert_eq!(bv.get_read_position(), 0);
    assert_eq!(bv.seq_read(), Some(1));
}

#[test]
fn read_byte_composes_eight_reads() {
    let mut bv = BitVec::from(&[0x6A, 0xC3]);
    assert_eq!(bv.read_byte(), Some(0x6A));
    assert_eq!(bv.get_read_position(), 8);
    assert_eq!(bv.read_byte(), Some(0xC3));
    // fewer than eight bits remain: the read fails and the cursor is left
    // where the failed read stopped it
    assert_eq!(bv.read_byte(), None);
    assert_eq!(bv.get_read_position(), 16);
    let mut offset = BitVec::from(&[0x0F, 0xF0]);
    offset.set_read_position(4);
    assert_eq!(offset.read_byte(), Some(0xFF));
}

#[test]
fn read_bit_matches_seq_read() {
    let mut bv = BitVec::from(&[0x80]);
    let got = bv.read_bit();
    assert_eq!(got, Some(1));
    assert_eq!(bv.get_read_position(), 1);
}

#[test]
fn set_read_position_rejects_out_of_range() {
    let mut bv = partial(&[0xFF], 5);
    assert!(bv.set_read_position(4));
    assert_eq!(bv.get_read_position(), 4);
    assert_eq!(bv.get_byte_idx(), 0);
    assert_eq!(bv.get_bit_idx(), 4);
    assert!(!bv.set_read_position(5));
    assert_eq!(bv.get_read_position(), 4);
}

#[test]
fn pop_bit_retracts_cursor_at_end() {
    let mut bv = BitVec::from(&[0xFF]);
    bv.set_read_position(7);
    bv.pop_bit();
    assert_eq!(bv.get_read_position(), 6);
    bv.reset_seq_read();
    bv.pop_bit();
    // the cursor sat before the new length, so it stays put
    assert_eq!(bv.get_read_position(), 0);
}

#[test]
fn fill_sets_and_clears_all_valid_bits() {
    let mut bv = partial(&[0, 0], 12);
    bv.fill(true);
    assert_eq!(bv.export(), vec![0xFF, 0xF0]);
    assert!(!bv.is_zero());
    bv.fill(false);
    assert_eq!(bv.export(), vec![0x00, 0x00]);
    assert!(bv.is_zero());
}

#[test]
fn set_algebra_length_policy() {
    // a = 0b11001100 (8 bits), b = 0b101xxxxx (3 bits)
    let a = BitVec::from(&[0b11001100]);
    let b = partial(&[0b10100000], 3);
    let and = a.intersec(&b);
    assert_eq!(and.len_bits(), 3);
    assert_eq!(and.export(), vec![0b10000000]);
    let andnot = a.comp_int(&b);
    assert_eq!(andnot.len_bits(), 3);
    assert_eq!(andnot.export(), vec![0b01000000]);
    let or = a.union(&b);
    assert_eq!(or.len_bits(), 8);
    assert_eq!(or.export(), vec![0b11101100]);
    let xor = a.symm_diff(&b);
    assert_eq!(xor.len_bits(), 8);
    assert_eq!(xor.export(), vec![0b01101100]);
}

#[test]
fn masks_select_expected_bits() {
    assert_eq!(BitVec::mask_msb(3), 0b11100000);
    assert_eq!(BitVec::mask_msb(8), 0xFF);
    assert_eq!(BitVec::mask_msb(0), 0xFF);
    assert_eq!(BitVec::mask_lsb(3), 0b00000111);
    assert_eq!(BitVec::mask_lsb(8), 0xFF);
    assert_eq!(BitVec::mask_lsb(0), 0xFF);
}

#[test]
fn export_returns_stored_bytes() {
    let bv = BitVec::from(&[1, 2, 3]);
    assert_eq!(bv.export(), vec![1, 2, 3]);
    assert_eq!(bv.len(), 3);
    assert_eq!(bv.len_bits(), 24);
}

#[test]
fn as_binary_renders_bytes() {
    let bv = BitVec::from(&[0x6A]);
    assert_eq!(bv.as_binary(), "01101010");
    let two = BitVec::from(&[0x80, 0x01]);
    assert_eq!(two.as_binary(), "10000000 00000001");
    assert_eq!(BitVec::new().as_binary(), "");
}

#[test]
fn as_char_decodes_bytes() {
    let bv = BitVec::from(&[72, 105]);
    assert_eq!(bv.as_char(), "Hi");
}

#[test]
fn from_string_takes_utf8_bytes() {
    let s = String::from("Hi");
    let bv = BitVec::from_string(&s);
    assert_eq!(bv.len_bits(), 16);
    assert_eq!(bv.export(), vec![72, 105]);
}
