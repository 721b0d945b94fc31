//! Laws the buffer's operations obey, stated over the bit sequences that the
//! operations' contracts speak of.

use vstd::prelude::*;

use crate::bits::complement_bits;

verus! {

/// Law: for any valid index, writing a bit with `set_bit` and reading it
/// back with `get_bit` yields the value written.  `set_bit` turns the bit
/// sequence into `bits.update(index, value)`, and `get_bit` returns the bit
/// the sequence holds at the index.
pub proof fn lemma_set_bit_then_get_bit(bits: Seq<bool>, index: int, value: bool)
    requires
        0 <= index < bits.len(),
    ensures
        bits.update(index, value)[index] == value,
{
}

/// Law: `push_bit` followed immediately by `pop_bit` yields the pushed value
/// and leaves the bit sequence — its length included — unchanged.
/// `push_bit` turns the sequence into `bits.push(value)`; `pop_bit` returns
/// the last bit and drops it.
pub proof fn lemma_push_bit_then_pop_bit(bits: Seq<bool>, value: bool)
    ensures
        bits.push(value).last() == value,
        bits.push(value).drop_last() == bits,
{
    assert(bits.push(value).drop_last() =~= bits);
}

/// Law: extending a buffer holding `a` with one holding `b` — which turns
/// the bit sequence into `a + b` — yields the sum of the lengths, keeps
/// every bit of `a` at its index, and places bit `j` of `b` at index
/// `a.len() + j`.
pub proof fn lemma_extend_bits(a: Seq<bool>, b: Seq<bool>)
    ensures
        (a + b).len() == a.len() + b.len(),
        forall|i: int| 0 <= i < a.len() ==> #[trigger] (a + b)[i] == a[i],
        forall|j: int| a.len() <= j < a.len() + b.len() ==> #[trigger] (a + b)[j] == b[j - a.len()],
{
}

/// Law: complementing a buffer twice restores it bit for bit over its whole
/// length.  `compliment` turns the bit sequence into `complement_bits` of
/// it.
pub proof fn lemma_complement_involution(bits: Seq<bool>)
    ensures
        complement_bits(complement_bits(bits)) == bits,
{
    assert(complement_bits(complement_bits(bits)) =~= bits);
}

} // verus!
