//! Bit-level model of the byte storage.
//!
//! A byte is read most-significant bit first: position `k` of byte `b` is
//! the bit selected by the mask `128 >> k`.  The spec functions here give
//! every byte-wise operation of the buffer its meaning over sequences of
//! booleans; the lemmas, proved with the bit-vector solver, connect the
//! executable shift and mask arithmetic to that meaning.

use vstd::prelude::*;

verus! {

/// Bit `k` of byte `b`, counting from the most significant bit.
pub open spec fn bit_read(b: u8, k: u8) -> bool
    recommends
        k < 8,
{
    b & (128u8 >> k) != 0
}

/// Bit `i` of a byte sequence, in most-significant-bit-first order.
pub open spec fn nth_bit(bytes: Seq<u8>, i: int) -> bool
    recommends
        0 <= i < 8 * bytes.len(),
{
    bit_read(bytes[i / 8], (i % 8) as u8)
}

/// The eight bits of one byte, most significant first.
pub open spec fn byte_bits(b: u8) -> Seq<bool> {
    Seq::new(8, |k: int| bit_read(b, k as u8))
}

/// `bytes` stores exactly the bit sequence `bits`: the byte count is the
/// smallest that holds every bit, and every stored position past the end of
/// `bits` reads as zero.
pub open spec fn bytes_encode(bytes: Seq<u8>, bits: Seq<bool>) -> bool {
    &&& bytes.len() == (bits.len() + 7) / 8
    &&& forall|i: int|
        0 <= i < 8 * bytes.len() ==> #[trigger] nth_bit(bytes, i) == (i < bits.len() && bits[i])
}

/// Bit `i` of `bits`, treating every position outside the sequence as zero.
pub open spec fn bit_ext(bits: Seq<bool>, i: int) -> bool {
    0 <= i < bits.len() && bits[i]
}

/// Every bit flipped, over the same length.
pub open spec fn complement_bits(bits: Seq<bool>) -> Seq<bool> {
    Seq::new(bits.len(), |i: int| !bits[i])
}

/// Bitwise AND over the overlap of the two operands.
pub open spec fn and_bits(a: Seq<bool>, b: Seq<bool>) -> Seq<bool> {
    Seq::new(if a.len() <= b.len() { a.len() } else { b.len() }, |i: int| a[i] && b[i])
}

/// Bitwise AND-NOT over the overlap of the two operands.
pub open spec fn andnot_bits(a: Seq<bool>, b: Seq<bool>) -> Seq<bool> {
    Seq::new(if a.len() <= b.len() { a.len() } else { b.len() }, |i: int| a[i] && !b[i])
}

/// Bitwise OR over the longer of the two operands, reading the shorter one
/// as zero past its end.
pub open spec fn or_bits(a: Seq<bool>, b: Seq<bool>) -> Seq<bool> {
    Seq::new(
        if a.len() >= b.len() { a.len() } else { b.len() },
        |i: int| bit_ext(a, i) || bit_ext(b, i),
    )
}

/// Bitwise XOR over the longer of the two operands, reading the shorter one
/// as zero past its end.
pub open spec fn xor_bits(a: Seq<bool>, b: Seq<bool>) -> Seq<bool> {
    Seq::new(
        if a.len() >= b.len() { a.len() } else { b.len() },
        |i: int| bit_ext(a, i) != bit_ext(b, i),
    )
}

/// The binary rendering of a byte sequence: eight `'0'`/`'1'` characters per
/// byte, most significant bit first, with one space between bytes.
pub open spec fn binary_render(bytes: Seq<u8>) -> Seq<char> {
    Seq::new(
        if bytes.len() == 0 {
            0
        } else {
            (9 * bytes.len() - 1) as nat
        },
        |p: int|
            if p % 9 == 8 {
                ' '
            } else if bit_read(bytes[p / 9], (p % 9) as u8) {
                '1'
            } else {
                '0'
            },
    )
}

/// How the boolean connectives act on single bit positions.
pub(crate) proof fn lemma_bit_ops()
    by (bit_vector)
    ensures
        forall|x: u8, y: u8, j: u8| j < 8 ==> #[trigger] bit_read(x & y, j) == (bit_read(x, j)
            && bit_read(y, j)),
        forall|x: u8, y: u8, j: u8| j < 8 ==> #[trigger] bit_read(x | y, j) == (bit_read(x, j)
            || bit_read(y, j)),
        forall|x: u8, y: u8, j: u8| j < 8 ==> #[trigger] bit_read(x ^ y, j) == (bit_read(x, j)
            != bit_read(y, j)),
        forall|x: u8, j: u8| j < 8 ==> #[trigger] bit_read(!x, j) == !bit_read(x, j),
        forall|j: u8| j < 8 ==> !#[trigger] bit_read(0u8, j),
        forall|j: u8| j < 8 ==> #[trigger] bit_read(0xFFu8, j),
{
}

/// How the shift operators move single bit positions.
pub(crate) proof fn lemma_bit_shifts()
    by (bit_vector)
    ensures
        forall|x: u8, s: u8, j: u8|
            s < 8 && j < 8 ==> #[trigger] bit_read(x >> s, j) == (j >= s && bit_read(
                x,
                (j - s) as u8,
            )),
        forall|x: u8, s: u8, j: u8|
            s < 8 && j < 8 ==> #[trigger] bit_read(x << s, j) == (j + s < 8 && bit_read(
                x,
                (j + s) as u8,
            )),
        forall|k: u8, j: u8| k < 8 && j < 8 ==> #[trigger] bit_read(128u8 >> k, j) == (j == k),
        forall|k: u8| k < 8 ==> (1u8 << ((7 - k) as u8)) == (128u8 >> k),
{
}

/// Shifting a byte left by one and OR-ing in a low bit moves every stored
/// position up by one and writes the new bit at the least significant end.
pub(crate) proof fn lemma_shift_in()
    by (bit_vector)
    ensures
        forall|x: u8, c: u8, k: u8|
            c <= 1 && k < 8 ==> #[trigger] bit_read((x << 1u8) | c, k) == (if k < 7 {
                bit_read(x, (k + 1) as u8)
            } else {
                c == 1
            }),
{
}

/// A byte is zero exactly when each of its eight bits is clear.
pub(crate) proof fn lemma_zero_byte()
    by (bit_vector)
    ensures
        forall|b: u8|
            b == 0 <==> (!#[trigger] bit_read(b, 0) && !bit_read(b, 1) && !bit_read(b, 2)
                && !bit_read(b, 3) && !bit_read(b, 4) && !bit_read(b, 5) && !bit_read(b, 6)
                && !bit_read(b, 7)),
{
}

} // verus!
