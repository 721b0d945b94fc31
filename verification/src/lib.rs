//! A growable, bit-addressable buffer.
//!
//! A [`BitVec`] owns a contiguous byte region and exposes it as an ordered
//! sequence of bits.  Bit 0 of a byte is its most significant bit, so bit
//! index `i` lives in byte `i / 8` at position `7 - (i % 8)` from the least
//! significant end.  The buffer supports random-access reads and writes of
//! single bits, appending and removing at bit and byte granularity, an
//! independent sequential read cursor, and boolean set operations between
//! two buffers.

mod bits;
mod bitvec;
mod laws;

pub use bits::{
    and_bits, andnot_bits, binary_render, bit_ext, bit_read, byte_bits, bytes_encode,
    complement_bits, nth_bit, or_bits, xor_bits,
};
pub use bitvec::{lossy_text, BitVec, BitVecError};
pub use laws::{
    lemma_complement_involution, lemma_extend_bits, lemma_push_bit_then_pop_bit,
    lemma_set_bit_then_get_bit,
};
