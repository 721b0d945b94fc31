//! The bit buffer itself: storage, bit addressing, the sequential read
//! cursor, and the set-algebra operations.

use vstd::prelude::*;

use crate::bits::{
    and_bits, andnot_bits, bit_ext, bit_read, byte_bits, bytes_encode, complement_bits, nth_bit,
    or_bits, xor_bits,
};
use vstd::pervasive::VecAdditionalExecFns;
use vstd::string::{StrSliceExecFns, StringExecFns};

verus! {

/// What `String::from_utf8_lossy` makes of a byte sequence; the result
/// depends on the bytes alone.
pub uninterp spec fn lossy_text(bytes: Seq<u8>) -> Seq<char>;

/// Relies on `String::from_utf8_lossy`: the characters produced are a
/// function of the given bytes alone, with invalid sequences replaced.
#[verifier::external_body]
fn utf8_lossy(bytes: &Vec<u8>) -> (r: String)
    ensures
        r@ == lossy_text(bytes@),
{
    String::from_utf8_lossy(bytes).into_owned()
}

/// A recoverable failure of a bounds-checked access.
#[derive(Clone, Copy, Debug, PartialEq, Eq, Structural)]
pub enum BitVecError {
    /// The requested bit index lies at or beyond the buffer's bit length.
    IndexOutOfRange,
}

/// A growable vector of bits, stored most-significant bit first in a byte
/// region that the buffer exclusively owns.
///
/// The buffer keeps exactly enough bytes for its `len` valid bits, and every
/// stored bit at an index at or beyond `len` is zero, so whole-byte scans
/// never see stale values.  A separate cursor (`byte_idx`, `bit_idx`) serves
/// the sequential read operations; it never moves past `len`.
pub struct BitVec {
    data: Vec<u8>,
    len: usize,
    byte_idx: usize,
    bit_idx: u8,
}

impl View for BitVec {
    type V = Seq<bool>;

    /// The sequence of the buffer's `len` valid bits.
    closed spec fn view(&self) -> Seq<bool> {
        Seq::new(self.len as nat, |i: int| nth_bit(self.data@, i))
    }
}

impl BitVec {
    /// The stored bytes, exactly as exported.
    pub closed spec fn spec_bytes(self) -> Seq<u8> {
        self.data@
    }

    /// The cursor's position, in bits from the start of the buffer.
    pub closed spec fn read_pos(self) -> int {
        8 * self.byte_idx + self.bit_idx
    }

    /// Well-formedness: the byte region is the smallest that holds every
    /// valid bit, stored bits past the valid length read as zero, and the
    /// sequential cursor sits at or before the valid length.
    pub closed spec fn wf(self) -> bool {
        &&& self.data@.len() == (self.len + 7) / 8
        &&& forall|i: int| self.len <= i < 8 * self.data@.len() ==> !#[trigger] nth_bit(self.data@, i)
        &&& self.bit_idx < 8
        &&& 8 * self.byte_idx + self.bit_idx <= self.len
    }

    /// A well-formed buffer's bytes store exactly its bit sequence.
    pub proof fn lemma_bytes_encode_view(self)
        requires
            self.wf(),
        ensures
            bytes_encode(self.spec_bytes(), self@),
    {
    }

    /// Constructs a new, empty buffer.
    pub fn new() -> (r: Self)
        ensures
            r.wf(),
            r@ == Seq::<bool>::empty(),
            r.read_pos() == 0,
    {
        let r = Self { data: Vec::new(), len: 0, byte_idx: 0, bit_idx: 0 };
        proof {
            assert(r@ =~= Seq::<bool>::empty());
        }
        r
    }

    /// Generates a new buffer holding the given bytes; every bit of them is
    /// valid, so the bit length is eight times the byte count.
    pub fn from(data: &[u8]) -> (r: Self)
        requires
            8 * data@.len() <= usize::MAX,
        ensures
            r.wf(),
            r.spec_bytes() == data@,
            r@.len() == 8 * data@.len(),
            forall|i: int| 0 <= i < r@.len() ==> #[trigger] r@[i] == nth_bit(data@, i),
            r.read_pos() == 0,
    {
        let owned: Vec<u8> = vstd::slice::slice_to_vec(data);
        let len = data.len() * 8;
        Self { data: owned, len, byte_idx: 0, bit_idx: 0 }
    }

    /// The number of bytes the buffer currently stores.
    pub fn len(&self) -> (r: usize)
        requires
            self.wf(),
        ensures
            r == (self@.len() + 7) / 8,
            r == self.spec_bytes().len(),
    {
        self.data.len()
    }

    /// The number of valid bits stored in the buffer.
    pub fn len_bits(&self) -> (r: usize)
        ensures
            r == self@.len(),
    {
        self.len
    }

    /// Returns the bit value at the desired index, reading each byte from
    /// its most significant bit, or reports the index as out of range when
    /// it lies at or beyond the bit length.
    pub fn get_bit(&self, index: usize) -> (r: Result<bool, BitVecError>)
        requires
            self.wf(),
        ensures
            index < self@.len() ==> r == Ok::<bool, BitVecError>(self@[index as int]),
            index >= self@.len() ==> r == Err::<bool, BitVecError>(BitVecError::IndexOutOfRange),
    {
        if index >= self.len {
            return Err(BitVecError::IndexOutOfRange);
        }
        let byte_index = index / 8;
        let bit_index = (index % 8) as u8;
        let byte = self.data[byte_index];
        proof {
            crate::bits::lemma_bit_shifts();
        }
        Ok((byte & (1u8 << (7 - bit_index))) != 0)
    }

    /// Reads bit `k` of a single byte, most significant bit first.
    fn byte_get(b: u8, k: u8) -> (r: bool)
        requires
            k < 8,
        ensures
            r == bit_read(b, k),
    {
        proof {
            crate::bits::lemma_bit_shifts();
        }
        (b & (1u8 << (7 - k))) != 0
    }

    /// Writes bit `k` of a single byte, leaving the other bits unchanged.
    fn byte_set(b: u8, k: u8, value: bool) -> (r: u8)
        requires
            k < 8,
        ensures
            forall|j: u8|
                j < 8 ==> #[trigger] bit_read(r, j) == (if j == k {
                    value
                } else {
                    bit_read(b, j)
                }),
    {
        proof {
            crate::bits::lemma_bit_ops();
            crate::bits::lemma_bit_shifts();
        }
        if value {
            b | (128u8 >> k)
        } else {
            b & !(128u8 >> k)
        }
    }

    /// Constructs a new, empty buffer whose storage is pre-sized to hold at
    /// least the given number of bits, so early growth is avoided.
    pub fn with_capacity(bits: usize) -> (r: Self)
        ensures
            r.wf(),
            r@ == Seq::<bool>::empty(),
            r.read_pos() == 0,
    {
        let bytes: usize = bits / 8 + if bits % 8 == 0 {
            0
        } else {
            1
        };
        let r = Self { data: Vec::with_capacity(bytes), len: 0, byte_idx: 0, bit_idx: 0 };
        proof {
            assert(r@ =~= Seq::<bool>::empty());
        }
        r
    }

    /// Exports the stored bytes exactly as they stand; bits past the valid
    /// length read as zero in the final byte.
    pub fn export(&self) -> (r: Vec<u8>)
        requires
            self.wf(),
        ensures
            r@ == self.spec_bytes(),
            bytes_encode(r@, self@),
    {
        vstd::slice::slice_to_vec(self.data.as_slice())
    }

    /// Sets the bit at the desired index.  A write past the current bit
    /// length grows the buffer to make the index valid, filling the gap
    /// with zeros rather than failing.
    pub fn set_bit(&mut self, index: usize, value: bool)
        requires
            old(self).wf(),
            index < usize::MAX,
        ensures
            final(self).wf(),
            index < old(self)@.len() ==> final(self)@ == old(self)@.update(index as int, value),
            index >= old(self)@.len() ==> final(self)@ == old(self)@ + Seq::new(
                (index - old(self)@.len()) as nat,
                |i: int| false,
            ).push(value),
            final(self).read_pos() == old(self).read_pos(),
    {
        let byte_index = index / 8;
        let bit_index = (index % 8) as u8;
        if index >= self.len {
            proof {
                assert(old(self).data@.len() <= byte_index + 1) by {
                    assert((old(self).len + 7) / 8 <= (index + 7) / 8);
                    assert((index + 7) / 8 <= index / 8 + 1);
                }
            }
            // Grow the byte region with zeroed storage, then declare every
            // bit up to the index valid.
            while self.data.len() <= byte_index
                invariant
                    old(self).wf(),
                    byte_index < usize::MAX,
                    index / 8 == byte_index,
                    self.data@.len() <= byte_index + 1,
                    self.len == old(self).len,
                    self.byte_idx == old(self).byte_idx,
                    self.bit_idx == old(self).bit_idx,
                    self.data@.len() >= old(self).data@.len(),
                    forall|bi: int|
                        0 <= bi < self.data@.len() ==> #[trigger] self.data@[bi] == (if bi < old(
                            self,
                        ).data@.len() {
                            old(self).data@[bi]
                        } else {
                            0u8
                        }),
                decreases byte_index + 1 - self.data@.len(),
            {
                self.data.push(0);
            }
            self.len = index + 1;
        }
        let b = self.data[byte_index];
        self.data.set(byte_index, Self::byte_set(b, bit_index, value));
        proof {
            if index >= old(self).len {
                assert((index + 1 + 7) / 8 == index / 8 + 1);
            }
            self.lemma_after_set_bit(*old(self), index, value, b);
        }
    }

    /// Pushes a bit at the end of the buffer, growing the byte region by one
    /// byte only when the current length is byte-aligned.
    pub fn push_bit(&mut self, value: bool)
        requires
            old(self).wf(),
            old(self)@.len() < usize::MAX,
        ensures
            final(self).wf(),
            final(self)@ == old(self)@.push(value),
            final(self).read_pos() == old(self).read_pos(),
    {
        let byte_offset = self.len / 8;
        let bit_offset = (self.len % 8) as u8;
        // The last byte in the region is already full.
        if bit_offset == 0 {
            self.data.push(0);
        }
        let b = self.data[byte_offset];
        self.data.set(byte_offset, Self::byte_set(b, bit_offset, value));
        self.len = self.len + 1;
        proof {
            crate::bits::lemma_bit_ops();
            assert forall|i: int| 0 <= i < self.len implies #[trigger] nth_bit(self.data@, i)
                == old(self)@.push(value)[i] by {
                assert(0 <= i % 8 < 8);
            }
            assert forall|i: int|
                self.len <= i < 8 * self.data@.len() implies !#[trigger] nth_bit(self.data@, i) by {
                assert(0 <= i % 8 < 8);
                assert(i / 8 == byte_offset as int);
                assert((i % 8) as u8 != bit_offset);
                if bit_offset == 0 {
                    assert(b == 0u8);
                } else {
                    assert(!nth_bit(old(self).data@, i));
                }
            }
            assert(self@ =~= old(self)@.push(value));
        }
    }

    /// Removes and returns the last bit in the buffer, clearing its storage
    /// to zero.  The sequential cursor retracts by one position when it sat
    /// at or beyond the shortened length.
    pub fn pop_bit(&mut self) -> (r: Option<bool>)
        requires
            old(self).wf(),
        ensures
            final(self).wf(),
            old(self)@.len() == 0 ==> r == None::<bool> && final(self)@ == old(self)@
                && final(self).read_pos() == old(self).read_pos(),
            old(self)@.len() > 0 ==> r == Some(old(self)@.last())
                && final(self)@ == old(self)@.drop_last()
                && final(self).read_pos() == (
                    if old(self).read_pos() >= old(self)@.len() - 1 && old(self).read_pos() > 0 {
                        old(self).read_pos() - 1
                    } else {
                        old(self).read_pos()
                    }
                ),
    {
        if self.len == 0 {
            return None;
        }
        let idx = self.len - 1;
        let byte_index = idx / 8;
        let bit_index = (idx % 8) as u8;
        let bit = Self::byte_get(self.data[byte_index], bit_index);
        // Retract the cursor if it sits at or beyond the new length.
        if self.byte_idx * 8 + self.bit_idx as usize >= idx {
            if self.bit_idx == 0 {
                if self.byte_idx > 0 {
                    self.byte_idx = self.byte_idx - 1;
                    self.bit_idx = 7;
                }
            } else {
                self.bit_idx = self.bit_idx - 1;
            }
        }
        if bit_index == 0 {
            // The popped bit was alone in the final byte: drop that byte.
            self.data.pop();
        } else {
            let b = self.data[byte_index];
            self.data.set(byte_index, Self::byte_set(b, bit_index, false));
        }
        self.len = idx;
        proof {
            assert(old(self)@.last() == nth_bit(old(self).data@, idx as int));
            assert forall|i: int| 0 <= i < self.len implies #[trigger] nth_bit(self.data@, i)
                == old(self)@.drop_last()[i] by {
                assert(0 <= i % 8 < 8);
            }
            assert forall|i: int|
                self.len <= i < 8 * self.data@.len() implies !#[trigger] nth_bit(self.data@, i) by {
                assert(0 <= i % 8 < 8);
                assert(bit_index != 0);
                assert(i / 8 == byte_index as int);
                if i > idx {
                    assert(!nth_bit(old(self).data@, i));
                    assert((i % 8) as u8 != bit_index);
                }
            }
            assert(self@ =~= old(self)@.drop_last());
        }
        Some(bit)
    }

    /// Builds a bit mask whose first `size` bits, counted from the most
    /// significant end, are set.  A size of zero yields the full mask.
    pub fn mask_msb(size: usize) -> (r: u8)
        requires
            size <= 8,
        ensures
            forall|k: u8| k < 8 ==> #[trigger] bit_read(r, k) == (size == 0 || k < size),
    {
        proof {
            crate::bits::lemma_bit_ops();
            crate::bits::lemma_bit_shifts();
        }
        if size > 0 {
            let s: u8 = (8 - size) as u8;
            if s == 0 {
                0xFF
            } else {
                0xFFu8 << s
            }
        } else {
            0xFF
        }
    }

    /// Builds a bit mask whose last `size` bits, counted from the least
    /// significant end, are set.  A size of zero yields the full mask.
    pub fn mask_lsb(size: usize) -> (r: u8)
        requires
            size <= 8,
        ensures
            forall|k: u8| k < 8 ==> #[trigger] bit_read(r, k) == (size == 0 || k + size >= 8),
    {
        proof {
            crate::bits::lemma_bit_ops();
            crate::bits::lemma_bit_shifts();
        }
        if size > 0 {
            let s: u8 = (8 - size) as u8;
            if s == 0 {
                0xFF
            } else {
                0xFFu8 >> s
            }
        } else {
            0xFF
        }
    }

    /// Completely fills the buffer's valid bits with the given value; bits
    /// past the valid length stay zero.
    pub fn fill(&mut self, value: bool)
        requires
            old(self).wf(),
        ensures
            final(self).wf(),
            final(self)@ == Seq::new(old(self)@.len(), |i: int| value),
            final(self).read_pos() == old(self).read_pos(),
    {
        let num_bytes = self.data.len();
        let mut i: usize = 0;
        let byte: u8 = if value {
            0xFF
        } else {
            0
        };
        while i < num_bytes
            invariant
                old(self).wf(),
                num_bytes == self.data@.len(),
                i <= num_bytes,
                self.len == old(self).len,
                self.byte_idx == old(self).byte_idx,
                self.bit_idx == old(self).bit_idx,
                byte == if value {
                    0xFFu8
                } else {
                    0u8
                },
                forall|bi: int| 0 <= bi < i ==> #[trigger] self.data@[bi] == byte,
                forall|bi: int|
                    i <= bi < num_bytes ==> #[trigger] self.data@[bi] == old(self).data@[bi],
            decreases num_bytes - i,
        {
            self.data.set(i, byte);
            i = i + 1;
        }
        // Mask the final partial byte so the invalid tail keeps reading zero.
        let offset = self.len % 8;
        if value && offset != 0 {
            let last = num_bytes - 1;
            self.data.set(last, Self::mask_msb(offset));
        }
        proof {
            crate::bits::lemma_bit_ops();
            assert forall|i: int|
                0 <= i < 8 * self.data@.len() implies #[trigger] nth_bit(self.data@, i) == (i
                < self.len && value) by {
                assert(0 <= i % 8 < 8);
                if value && self.len % 8 != 0 && i / 8 == self.data@.len() - 1 {
                    assert(bit_read(self.data@[i / 8], (i % 8) as u8) == ((i % 8) < self.len % 8));
                    assert((i < self.len) == ((i % 8) < self.len % 8));
                }
            }
            assert(self@ =~= Seq::new(old(self)@.len(), |i: int| value));
        }
    }

    /// Pushes a whole byte at the end of the buffer.  When the length is not
    /// byte-aligned, the byte is split across the partial tail byte and a
    /// newly appended byte, preserving bit order across the boundary.
    pub fn push_byte(&mut self, byte: u8)
        requires
            old(self).wf(),
            old(self)@.len() + 8 <= usize::MAX,
        ensures
            final(self).wf(),
            final(self)@ == old(self)@ + byte_bits(byte),
            final(self).read_pos() == old(self).read_pos(),
    {
        let byte_offset = self.len / 8;
        let bit_offset = (self.len % 8) as u8;
        proof {
            crate::bits::lemma_bit_ops();
            crate::bits::lemma_bit_shifts();
        }
        if bit_offset == 0 {
            // Perfect byte alignment: the byte is appended whole.
            self.data.push(byte);
        } else {
            let b = self.data[byte_offset];
            self.data.set(byte_offset, b | (byte >> bit_offset));
            self.data.push(byte << ((8 - bit_offset) as u8));
            proof {
                assert forall|j: u8|
                    j < 8 implies #[trigger] bit_read(self.data@[byte_offset as int], j) == (
                    if j < bit_offset {
                        bit_read(b, j)
                    } else {
                        bit_read(byte, (j - bit_offset) as u8)
                    }) by {
                    if j >= bit_offset {
                        assert(!nth_bit(old(self).data@, 8 * byte_offset + j));
                        assert(!bit_read(b, j));
                    }
                }
                assert forall|j: u8|
                    j < 8 implies #[trigger] bit_read(self.data@[byte_offset + 1], j) == (j
                    < bit_offset && bit_read(byte, (j + 8 - bit_offset) as u8)) by {
                }
            }
        }
        self.len = self.len + 8;
        proof {
            assert forall|i: int| 0 <= i < self.len implies #[trigger] nth_bit(self.data@, i) == (
            old(self)@ + byte_bits(byte))[i] by {
                assert(0 <= i % 8 < 8);
                if i < old(self).len {
                    assert(i / 8 <= byte_offset as int);
                    assert(nth_bit(self.data@, i) == nth_bit(old(self).data@, i));
                }
            }
            assert forall|i: int|
                self.len <= i < 8 * self.data@.len() implies !#[trigger] nth_bit(self.data@, i) by {
                assert(0 <= i % 8 < 8);
            }
            assert(self@ =~= old(self)@ + byte_bits(byte));
        }
    }

    /// Moves the sequential cursor back to the end of the buffer when a
    /// removal has left it pointing past the valid length.
    fn clamp_cursor(&mut self)
        requires
            old(self).bit_idx < 8,
            8 * old(self).byte_idx + old(self).bit_idx <= usize::MAX,
        ensures
            final(self).data == old(self).data,
            final(self).len == old(self).len,
            final(self).bit_idx < 8,
            8 * final(self).byte_idx + final(self).bit_idx <= old(self).len,
            final(self).read_pos() == (if old(self).read_pos() <= old(self).len {
                old(self).read_pos()
            } else {
                old(self).len as int
            }),
    {
        let pos = self.byte_idx * 8 + self.bit_idx as usize;
        if pos > self.len {
            self.byte_idx = self.len / 8;
            self.bit_idx = (self.len % 8) as u8;
        }
    }

    /// Removes and returns the last contiguous byte of valid bits regardless
    /// of alignment.  With fewer than eight valid bits left it returns what
    /// is available, padded with zeros toward the least significant end.
    /// The cursor moves back to the new end if it pointed past it.
    #[verifier::spinoff_prover]
    #[verifier::rlimit(100)]
    pub fn pop_byte(&mut self) -> (r: Option<u8>)
        requires
            old(self).wf(),
        ensures
            final(self).wf(),
            old(self)@.len() == 0 ==> r == None::<u8> && final(self)@ == old(self)@
                && final(self).read_pos() == old(self).read_pos(),
            old(self)@.len() > 0 ==> (r matches Some(b) && {
                let removed: int = if old(self)@.len() < 8 {
                    old(self)@.len() as int
                } else {
                    8
                };
                &&& byte_bits(b) == old(self)@.subrange(
                    old(self)@.len() - removed,
                    old(self)@.len() as int,
                ) + Seq::new((8 - removed) as nat, |i: int| false)
                &&& final(self)@ == old(self)@.take(old(self)@.len() - removed)
                &&& final(self).read_pos() == (if old(self).read_pos() <= final(self)@.len() {
                    old(self).read_pos()
                } else {
                    final(self)@.len() as int
                })
            }),
    {
        if self.len == 0 {
            return None;
        }
        let last = self.data.pop().unwrap();
        proof {
            crate::bits::lemma_bit_ops();
            crate::bits::lemma_bit_shifts();
        }
        if self.len < 8 {
            // Fewer than eight valid bits: all of them are removed, and the
            // stored tail already reads as zero.
            self.len = 0;
            self.byte_idx = 0;
            self.bit_idx = 0;
            proof {
                assert forall|k: int| 0 <= k < 8 implies #[trigger] byte_bits(last)[k] == (
                old(self)@ + Seq::new((8 - old(self)@.len()) as nat, |i: int| false))[k] by {
                    if k < old(self).len {
                        assert(byte_bits(last)[k] == nth_bit(old(self).data@, k));
                    } else {
                        assert(!nth_bit(old(self).data@, k));
                    }
                }
                assert(byte_bits(last) =~= old(self)@.subrange(0, old(self)@.len() as int)
                    + Seq::new((8 - old(self)@.len()) as nat, |i: int| false));
                assert(self@ =~= old(self)@.take(0));
            }
            return Some(last);
        }
        let len_tail = (self.len % 8) as u8;
        self.len = self.len - 8;
        // When there is perfect byte alignment the popped byte is returned
        // whole; otherwise it is rebuilt from the two straddled bytes.
        if len_tail == 0 {
            self.clamp_cursor();
            proof {
                assert forall|k: int| 0 <= k < 8 implies #[trigger] byte_bits(last)[k] == old(
                self)@.subrange(old(self)@.len() - 8, old(self)@.len() as int)[k] by {
                    assert(byte_bits(last)[k] == nth_bit(old(self).data@, old(self).len - 8 + k));
                }
                assert(byte_bits(last) =~= old(self)@.subrange(
                    old(self)@.len() - 8,
                    old(self)@.len() as int,
                ) + Seq::new(0, |i: int| false));
                assert(self@ =~= old(self)@.take(old(self)@.len() - 8));
            }
            return Some(last);
        }
        let len_head: u8 = 8 - len_tail;
        let tail = last >> len_head;
        let last_index = self.data.len() - 1;
        let prev = self.data[last_index];
        let head = prev << len_tail;
        self.data.set(last_index, prev & (0xFFu8 << len_head));
        self.clamp_cursor();
        let out = head | tail;
        proof {
            let n = old(self).len as int;
            let li = last_index as int;
            assert(n == 8 * li + 8 + len_tail);
            assert forall|k: int| 0 <= k < 8 implies #[trigger] byte_bits(out)[k] == old(
            self)@.subrange(n - 8, n)[k] by {
                if k < len_head {
                    assert((8 * li + len_tail + k) / 8 == li && (8 * li + len_tail + k) % 8
                        == len_tail + k);
                    assert(old(self)@[n - 8 + k] == bit_read(prev, (len_tail + k) as u8));
                } else {
                    assert((8 * li + len_tail + k) / 8 == li + 1 && (8 * li + len_tail + k) % 8
                        == len_tail + k - 8);
                    assert(old(self)@[n - 8 + k] == bit_read(last, (k - len_head) as u8));
                }
            }
            assert(byte_bits(out) =~= old(self)@.subrange(n - 8, n) + Seq::new(
                0,
                |i: int| false,
            ));
            assert forall|i: int| 0 <= i < self.len implies #[trigger] nth_bit(self.data@, i)
                == old(self)@.take(n - 8)[i] by {
                assert(0 <= i % 8 < 8);
                if i / 8 == li {
                    assert((i % 8) < len_tail);
                }
            }
            assert forall|i: int|
                self.len <= i < 8 * self.data@.len() implies !#[trigger] nth_bit(self.data@, i) by {
                assert(0 <= i % 8 < 8);
                assert(i / 8 == li && (i % 8) >= len_tail);
            }
            assert(self@ =~= old(self)@.take(n - 8));
        }
        Some(out)
    }

    /// Superseded name for `pop_vec_byte`, kept so existing callers keep
    /// working; prefer `pop_vec_byte`.
    pub fn pop_full_byte(&mut self) -> (r: Option<u8>)
        requires
            old(self).wf(),
        ensures
            final(self).wf(),
            old(self).spec_bytes().len() == 0 ==> r == None::<u8> && final(self)@ == old(self)@
                && final(self).read_pos() == old(self).read_pos(),
            old(self).spec_bytes().len() > 0 ==> r == Some(old(self).spec_bytes().last())
                && final(self)@ == old(self)@.take(8 * (old(self).spec_bytes().len() - 1))
                && final(self).read_pos() == (if old(self).read_pos() <= final(self)@.len() {
                    old(self).read_pos()
                } else {
                    final(self)@.len() as int
                }),
    {
        self.pop_vec_byte()
    }

    /// Removes and returns the last stored byte, truncating the valid length
    /// to the bits held by the remaining bytes.  The cursor moves back to
    /// the new end if it pointed past it.
    pub fn pop_vec_byte(&mut self) -> (r: Option<u8>)
        requires
            old(self).wf(),
        ensures
            final(self).wf(),
            old(self).spec_bytes().len() == 0 ==> r == None::<u8> && final(self)@ == old(self)@
                && final(self).read_pos() == old(self).read_pos(),
            old(self).spec_bytes().len() > 0 ==> r == Some(old(self).spec_bytes().last())
                && final(self)@ == old(self)@.take(8 * (old(self).spec_bytes().len() - 1))
                && final(self).read_pos() == (if old(self).read_pos() <= final(self)@.len() {
                    old(self).read_pos()
                } else {
                    final(self)@.len() as int
                }),
    {
        if self.data.len() == 0 {
            return None;
        }
        let b = self.data.pop().unwrap();
        proof {
            assert(8 * self.data@.len() < old(self).len + 8);
        }
        self.len = self.data.len() * 8;
        self.clamp_cursor();
        proof {
            assert(self@ =~= old(self)@.take(8 * (old(self).spec_bytes().len() - 1)));
        }
        Some(b)
    }

    /// Checks whether every valid bit of the buffer is zero.
    pub fn is_zero(&self) -> (r: bool)
        requires
            self.wf(),
        ensures
            r <==> (forall|i: int| 0 <= i < self@.len() ==> !self@[i]),
    {
        let n = self.data.len();
        let mut byte_idx: usize = 0;
        while byte_idx < n
            invariant
                self.wf(),
                n == self.data@.len(),
                byte_idx <= n,
                forall|i: int| 0 <= i < 8 * byte_idx ==> !#[trigger] nth_bit(self.data@, i),
            decreases n - byte_idx,
        {
            if self.data[byte_idx] != 0 {
                proof {
                    crate::bits::lemma_zero_byte();
                    let b = self.data@[byte_idx as int];
                    let k: int = if bit_read(b, 0) {
                        0
                    } else if bit_read(b, 1) {
                        1
                    } else if bit_read(b, 2) {
                        2
                    } else if bit_read(b, 3) {
                        3
                    } else if bit_read(b, 4) {
                        4
                    } else if bit_read(b, 5) {
                        5
                    } else if bit_read(b, 6) {
                        6
                    } else {
                        7
                    };
                    let p = 8 * byte_idx + k;
                    assert(p / 8 == byte_idx as int && p % 8 == k);
                    assert(nth_bit(self.data@, p));
                    assert(p < self.len);
                    assert(self@[p]);
                }
                return false;
            }
            byte_idx = byte_idx + 1;
            proof {
                crate::bits::lemma_bit_ops();
                assert forall|i: int|
                    0 <= i < 8 * byte_idx implies !#[trigger] nth_bit(self.data@, i) by {
                    assert(0 <= i % 8 < 8);
                }
            }
        }
        proof {
            assert forall|i: int| 0 <= i < self@.len() implies !self@[i] by {
                assert(!nth_bit(self.data@, i));
            }
        }
        true
    }

    /// The byte part of the sequential cursor, typically used for reading.
    pub fn get_byte_idx(&self) -> (r: usize)
        requires
            self.wf(),
        ensures
            r == self.read_pos() / 8,
    {
        self.byte_idx
    }

    /// The bit part of the sequential cursor, typically used for reading.
    pub fn get_bit_idx(&self) -> (r: u8)
        requires
            self.wf(),
        ensures
            r == self.read_pos() % 8,
    {
        self.bit_idx
    }

    /// The sequential cursor's position, in bits from the buffer's start.
    pub fn get_read_position(&self) -> (r: usize)
        requires
            self.wf(),
        ensures
            r == self.read_pos(),
    {
        self.byte_idx * 8 + self.bit_idx as usize
    }

    /// Resets the sequential cursor to the buffer's start.
    pub fn reset_seq_read(&mut self)
        requires
            old(self).wf(),
        ensures
            final(self).wf(),
            final(self)@ == old(self)@,
            final(self).read_pos() == 0,
    {
        self.byte_idx = 0;
        self.bit_idx = 0;
    }

    /// Jumps the sequential cursor to the given bit position.  A position at
    /// or beyond the valid length is refused: the call returns false and the
    /// cursor stays where it was.
    pub fn set_read_position(&mut self, bit_idx: usize) -> (r: bool)
        requires
            old(self).wf(),
        ensures
            final(self).wf(),
            final(self)@ == old(self)@,
            r == (bit_idx < old(self)@.len()),
            r ==> final(self).read_pos() == bit_idx,
            !r ==> final(self).read_pos() == old(self).read_pos(),
    {
        if bit_idx >= self.len {
            return false;
        }
        self.byte_idx = bit_idx / 8;
        self.bit_idx = (bit_idx % 8) as u8;
        true
    }

    /// Reads the bit at the sequential cursor as 0 or 1 and advances the
    /// cursor by one position; at or past the valid length it returns
    /// nothing and leaves the cursor alone.  Random access is `get_bit`.
    pub fn seq_read(&mut self) -> (r: Option<u8>)
        requires
            old(self).wf(),
        ensures
            final(self).wf(),
            final(self)@ == old(self)@,
            old(self).read_pos() >= old(self)@.len() ==> r == None::<u8> && final(self).read_pos()
                == old(self).read_pos(),
            old(self).read_pos() < old(self)@.len() ==> r == Some(
                if old(self)@[old(self).read_pos()] {
                    1u8
                } else {
                    0u8
                },
            ) && final(self).read_pos() == old(self).read_pos() + 1,
    {
        if self.byte_idx * 8 + self.bit_idx as usize >= self.len {
            return None;
        }
        proof {
            assert(self.byte_idx < self.data@.len());
            assert(self.read_pos() / 8 == self.byte_idx as int && self.read_pos() % 8
                == self.bit_idx as int);
        }
        let bit = Self::byte_get(self.data[self.byte_idx], self.bit_idx);
        self.bit_idx = self.bit_idx + 1;
        if self.bit_idx == 8 {
            self.byte_idx = self.byte_idx + 1;
            self.bit_idx = 0;
        }
        Some(
            if bit {
                1
            } else {
                0
            },
        )
    }

    /// Superseded name for `seq_read`, kept so existing callers keep
    /// working; prefer `seq_read`.
    pub fn read_bit(&mut self) -> (r: Option<u8>)
        requires
            old(self).wf(),
        ensures
            final(self).wf(),
            final(self)@ == old(self)@,
            old(self).read_pos() >= old(self)@.len() ==> r == None::<u8> && final(self).read_pos()
                == old(self).read_pos(),
            old(self).read_pos() < old(self)@.len() ==> r == Some(
                if old(self)@[old(self).read_pos()] {
                    1u8
                } else {
                    0u8
                },
            ) && final(self).read_pos() == old(self).read_pos() + 1,
    {
        self.seq_read()
    }

    /// Reads eight bits in sequence, most significant first, and returns the
    /// byte they form.  When fewer than eight bits remain the read returns
    /// nothing, and the cursor is left where the failed read stopped it: at
    /// the end of the buffer.
    pub fn read_byte(&mut self) -> (r: Option<u8>)
        requires
            old(self).wf(),
        ensures
            final(self).wf(),
            final(self)@ == old(self)@,
            old(self).read_pos() + 8 <= old(self)@.len() ==> (r matches Some(b)
                && byte_bits(b) == old(self)@.subrange(old(self).read_pos(), old(self).read_pos() + 8)
                && final(self).read_pos() == old(self).read_pos() + 8),
            old(self).read_pos() + 8 > old(self)@.len() ==> r == None::<u8>
                && final(self).read_pos() == old(self)@.len(),
    {
        let mut byte: u8 = 0;
        let mut count: u8 = 0;
        proof {
            crate::bits::lemma_bit_ops();
            crate::bits::lemma_shift_in();
        }
        while count < 8
            invariant
                self.wf(),
                self@ == old(self)@,
                count <= 8,
                self.read_pos() == old(self).read_pos() + count,
                self.read_pos() <= self@.len(),
                forall|k: u8|
                    k < 8 ==> #[trigger] bit_read(byte, k) == (k + count >= 8 && self@[old(
                        self,
                    ).read_pos() + k - (8 - count)]),
            decreases 8 - count,
        {
            match self.seq_read() {
                Some(bit) => {
                    proof {
                        crate::bits::lemma_shift_in();
                    }
                    byte = (byte << 1u8) | bit;
                    count = count + 1;
                },
                None => {
                    return None;
                },
            }
        }
        proof {
            assert(byte_bits(byte) =~= old(self)@.subrange(
                old(self).read_pos(),
                old(self).read_pos() + 8,
            ));
        }
        Some(byte)
    }

    /// Finds the smallest index at or after `start_idx` whose bit is set,
    /// scanning whole zero bytes at a time, and returns it if one exists
    /// before the end of the buffer.
    pub fn next_set_bit(&self, start_idx: usize) -> (r: Option<usize>)
        requires
            self.wf(),
        ensures
            r matches Some(k) ==> start_idx <= k < self@.len() && self@[k as int] && (forall|j: int|
                start_idx <= j < k ==> !self@[j]),
            r == None::<usize> ==> (forall|j: int| start_idx <= j < self@.len() ==> !self@[j]),
    {
        let mut i = start_idx;
        while i < self.len
            invariant
                self.wf(),
                start_idx <= i,
                forall|j: int| start_idx <= j < i ==> !self@[j],
            decreases self.len - i,
        {
            if i % 8 == 0 && self.len - i >= 8 && self.data[i / 8] == 0 {
                // A whole stored byte of zeros: skip its eight bits at once.
                proof {
                    crate::bits::lemma_bit_ops();
                    assert forall|j: int| i <= j < i + 8 implies !self@[j] by {
                        assert(j / 8 == i / 8 && 0 <= j % 8 < 8);
                        assert(self.data@[j / 8] == 0u8);
                        assert(!bit_read(0u8, (j % 8) as u8));
                    }
                }
                i = i + 8;
            } else {
                if Self::byte_get(self.data[i / 8], (i % 8) as u8) {
                    return Some(i);
                }
                i = i + 1;
            }
        }
        None
    }

    /// Extends this buffer with every bit of another, splicing across a
    /// non-byte-aligned boundary the same way `push_byte` does, byte by
    /// byte.
    pub fn extend(&mut self, other: &BitVec)
        requires
            old(self).wf(),
            other.wf(),
            old(self)@.len() + other@.len() <= usize::MAX,
        ensures
            final(self).wf(),
            final(self)@ == old(self)@ + other@,
            final(self).read_pos() == old(self).read_pos(),
    {
        let full_bytes = other.len / 8;
        let mut i: usize = 0;
        while i < full_bytes
            invariant
                self.wf(),
                other.wf(),
                full_bytes == other@.len() / 8,
                i <= full_bytes,
                old(self)@.len() + other@.len() <= usize::MAX,
                self@ == old(self)@ + other@.take(8 * i),
                self.read_pos() == old(self).read_pos(),
            decreases full_bytes - i,
        {
            proof {
                assert(byte_bits(other.data@[i as int]) =~= other@.subrange(8 * i, 8 * i + 8));
                assert((old(self)@ + other@.take(8 * i)) + other@.subrange(8 * i, 8 * i + 8)
                    =~= old(self)@ + other@.take(8 * (i + 1)));
            }
            self.push_byte(other.data[i]);
            i = i + 1;
        }
        let tail_bits = other.len % 8;
        let mut k: usize = 0;
        while k < tail_bits
            invariant
                self.wf(),
                other.wf(),
                full_bytes == other@.len() / 8,
                tail_bits == other@.len() % 8,
                k <= tail_bits,
                old(self)@.len() + other@.len() <= usize::MAX,
                self@ == old(self)@ + other@.take(8 * full_bytes + k),
                self.read_pos() == old(self).read_pos(),
            decreases tail_bits - k,
        {
            let bit = Self::byte_get(other.data[full_bytes], k as u8);
            proof {
                assert(bit == other@[8 * full_bytes + k]);
                assert((old(self)@ + other@.take(8 * full_bytes + k)).push(bit) =~= old(self)@
                    + other@.take(8 * full_bytes + (k + 1)));
            }
            self.push_bit(bit);
            k = k + 1;
        }
        proof {
            assert(other@.take(8 * full_bytes + tail_bits) =~= other@);
        }
    }

    /// Concatenates two buffers into a new one holding this buffer's bits
    /// followed by the other's.
    pub fn concat(&self, other: &BitVec) -> (r: Self)
        requires
            self.wf(),
            other.wf(),
            self@.len() + other@.len() <= usize::MAX,
        ensures
            r.wf(),
            r@ == self@ + other@,
            r.read_pos() == 0,
    {
        let mut r = Self {
            data: vstd::slice::slice_to_vec(self.data.as_slice()),
            len: self.len,
            byte_idx: 0,
            bit_idx: 0,
        };
        proof {
            assert(r@ =~= self@);
        }
        r.extend(other);
        r
    }

    /// Returns a new buffer of the same length with every bit flipped; the
    /// final partial byte is masked so bits past the length stay zero.
    pub fn compliment(&self) -> (r: Self)
        requires
            self.wf(),
        ensures
            r.wf(),
            r@ == complement_bits(self@),
            r.read_pos() == 0,
    {
        let n = self.data.len();
        let mut inverted: Vec<u8> = Vec::new();
        let mut i: usize = 0;
        proof {
            crate::bits::lemma_bit_ops();
        }
        while i < n
            invariant
                self.wf(),
                n == self.data@.len(),
                i <= n,
                inverted@.len() == i,
                forall|bi: int| 0 <= bi < i ==> #[trigger] inverted@[bi] == !self.data@[bi],
            decreases n - i,
        {
            inverted.push(!self.data[i]);
            i = i + 1;
        }
        // Everything was inverted, so the unset tail must return to zero.
        let offset = self.len % 8;
        if offset != 0 {
            let last = n - 1;
            let masked = inverted[last] & Self::mask_msb(offset);
            inverted.set(last, masked);
        }
        let r = Self { data: inverted, len: self.len, byte_idx: 0, bit_idx: 0 };
        proof {
            assert forall|i: int|
                0 <= i < 8 * r.data@.len() implies #[trigger] nth_bit(r.data@, i) == (i < self.len
                && !nth_bit(self.data@, i)) by {
                assert(0 <= i % 8 < 8);
                if self.len % 8 != 0 && i / 8 == r.data@.len() - 1 {
                    assert((i < self.len) == ((i % 8) < self.len % 8));
                }
            }
            assert(r@ =~= complement_bits(self@));
        }
        r
    }

    /// Returns a new buffer containing the bitwise AND of the two operands,
    /// over the shorter of the two lengths.
    pub fn intersec(&self, other: &BitVec) -> (r: Self)
        requires
            self.wf(),
            other.wf(),
        ensures
            r.wf(),
            r@ == and_bits(self@, other@),
            r.read_pos() == 0,
    {
        let min_len = if self.len <= other.len {
            self.len
        } else {
            other.len
        };
        let nb = min_len / 8 + if min_len % 8 == 0 {
            0
        } else {
            1
        };
        let mut out: Vec<u8> = Vec::new();
        let mut i: usize = 0;
        proof {
            crate::bits::lemma_bit_ops();
        }
        while i < nb
            invariant
                self.wf(),
                other.wf(),
                min_len <= self.len && min_len <= other.len,
                (min_len == self.len || min_len == other.len),
                nb == (min_len + 7) / 8,
                nb <= self.data@.len() && nb <= other.data@.len(),
                i <= nb,
                out@.len() == i,
                forall|bi: int|
                    0 <= bi < i ==> #[trigger] out@[bi] == (self.data@[bi] & other.data@[bi]),
            decreases nb - i,
        {
            out.push(self.data[i] & other.data[i]);
            i = i + 1;
        }
        let r = Self { data: out, len: min_len, byte_idx: 0, bit_idx: 0 };
        proof {
            assert forall|i: int|
                0 <= i < 8 * r.data@.len() implies #[trigger] nth_bit(r.data@, i) == (i < min_len
                && nth_bit(self.data@, i) && nth_bit(other.data@, i)) by {
                assert(0 <= i % 8 < 8);
                if i >= min_len {
                    if min_len == self.len {
                        assert(!nth_bit(self.data@, i));
                    } else {
                        assert(!nth_bit(other.data@, i));
                    }
                }
            }
            assert(r@ =~= and_bits(self@, other@));
        }
        r
    }

    /// Returns a new buffer containing the bitwise AND of this buffer with
    /// the other's complement, over the shorter of the two lengths.
    pub fn comp_int(&self, other: &BitVec) -> (r: Self)
        requires
            self.wf(),
            other.wf(),
        ensures
            r.wf(),
            r@ == andnot_bits(self@, other@),
            r.read_pos() == 0,
    {
        let min_len = if self.len <= other.len {
            self.len
        } else {
            other.len
        };
        let nb = min_len / 8 + if min_len % 8 == 0 {
            0
        } else {
            1
        };
        let mut out: Vec<u8> = Vec::new();
        let mut i: usize = 0;
        proof {
            crate::bits::lemma_bit_ops();
        }
        while i < nb
            invariant
                self.wf(),
                other.wf(),
                min_len <= self.len && min_len <= other.len,
                nb == (min_len + 7) / 8,
                nb <= self.data@.len() && nb <= other.data@.len(),
                i <= nb,
                out@.len() == i,
                forall|bi: int|
                    0 <= bi < i ==> #[trigger] out@[bi] == (self.data@[bi] & !other.data@[bi]),
            decreases nb - i,
        {
            out.push(self.data[i] & !other.data[i]);
            i = i + 1;
        }
        // The complemented tail of the shorter operand turned to ones, so
        // the final partial byte must be masked back to zero.
        if min_len % 8 != 0 {
            let last = nb - 1;
            let masked = out[last] & Self::mask_msb(min_len % 8);
            out.set(last, masked);
        }
        let r = Self { data: out, len: min_len, byte_idx: 0, bit_idx: 0 };
        proof {
            assert forall|i: int|
                0 <= i < 8 * r.data@.len() implies #[trigger] nth_bit(r.data@, i) == (i < min_len
                && nth_bit(self.data@, i) && !nth_bit(other.data@, i)) by {
                assert(0 <= i % 8 < 8);
                if min_len % 8 != 0 && i / 8 == r.data@.len() - 1 {
                    assert((i < min_len) == ((i % 8) < min_len % 8));
                }
            }
            assert(r@ =~= andnot_bits(self@, other@));
        }
        r
    }

    /// Returns a new buffer containing the bitwise OR of the two operands,
    /// over the longer of the two lengths; the shorter operand reads as
    /// zero past its end.
    pub fn union(&self, other: &BitVec) -> (r: Self)
        requires
            self.wf(),
            other.wf(),
        ensures
            r.wf(),
            r@ == or_bits(self@, other@),
            r.read_pos() == 0,
    {
        let max_len = if self.len >= other.len {
            self.len
        } else {
            other.len
        };
        let nb = max_len / 8 + if max_len % 8 == 0 {
            0
        } else {
            1
        };
        let mut out: Vec<u8> = Vec::new();
        let mut i: usize = 0;
        proof {
            crate::bits::lemma_bit_ops();
        }
        while i < nb
            invariant
                self.wf(),
                other.wf(),
                max_len >= self.len && max_len >= other.len,
                nb == (max_len + 7) / 8,
                nb >= self.data@.len() && nb >= other.data@.len(),
                i <= nb,
                out@.len() == i,
                forall|bi: int|
                    0 <= bi < i ==> #[trigger] out@[bi] == ((if bi < self.data@.len() {
                        self.data@[bi]
                    } else {
                        0u8
                    }) | (if bi < other.data@.len() {
                        other.data@[bi]
                    } else {
                        0u8
                    })),
            decreases nb - i,
        {
            let av = if i < self.data.len() {
                self.data[i]
            } else {
                0
            };
            let bv = if i < other.data.len() {
                other.data[i]
            } else {
                0
            };
            out.push(av | bv);
            i = i + 1;
        }
        let r = Self { data: out, len: max_len, byte_idx: 0, bit_idx: 0 };
        proof {
            assert forall|i: int|
                0 <= i < 8 * r.data@.len() implies #[trigger] nth_bit(r.data@, i) == (bit_ext(
                self@,
                i,
            ) || bit_ext(other@, i)) by {
                assert(0 <= i % 8 < 8);
                if i / 8 < self.data@.len() {
                    assert(nth_bit(self.data@, i) == bit_read(self.data@[i / 8], (i % 8) as u8));
                }
                if i / 8 < other.data@.len() {
                    assert(nth_bit(other.data@, i) == bit_read(other.data@[i / 8], (i % 8) as u8));
                }
            }
            assert(r@ =~= or_bits(self@, other@));
        }
        r
    }

    /// Returns a new buffer containing the bitwise XOR of the two operands,
    /// over the longer of the two lengths; the shorter operand reads as
    /// zero past its end.
    pub fn symm_diff(&self, other: &BitVec) -> (r: Self)
        requires
            self.wf(),
            other.wf(),
        ensures
            r.wf(),
            r@ == xor_bits(self@, other@),
            r.read_pos() == 0,
    {
        let max_len = if self.len >= other.len {
            self.len
        } else {
            other.len
        };
        let nb = max_len / 8 + if max_len % 8 == 0 {
            0
        } else {
            1
        };
        let mut out: Vec<u8> = Vec::new();
        let mut i: usize = 0;
        proof {
            crate::bits::lemma_bit_ops();
        }
        while i < nb
            invariant
                self.wf(),
                other.wf(),
                max_len >= self.len && max_len >= other.len,
                nb == (max_len + 7) / 8,
                nb >= self.data@.len() && nb >= other.data@.len(),
                i <= nb,
                out@.len() == i,
                forall|bi: int|
                    0 <= bi < i ==> #[trigger] out@[bi] == ((if bi < self.data@.len() {
                        self.data@[bi]
                    } else {
                        0u8
                    }) ^ (if bi < other.data@.len() {
                        other.data@[bi]
                    } else {
                        0u8
                    })),
            decreases nb - i,
        {
            let av = if i < self.data.len() {
                self.data[i]
            } else {
                0
            };
            let bv = if i < other.data.len() {
                other.data[i]
            } else {
                0
            };
            out.push(av ^ bv);
            i = i + 1;
        }
        let r = Self { data: out, len: max_len, byte_idx: 0, bit_idx: 0 };
        proof {
            assert forall|i: int|
                0 <= i < 8 * r.data@.len() implies #[trigger] nth_bit(r.data@, i) == (bit_ext(
                self@,
                i,
            ) != bit_ext(other@, i)) by {
                assert(0 <= i % 8 < 8);
                if i / 8 < self.data@.len() {
                    assert(nth_bit(self.data@, i) == bit_read(self.data@[i / 8], (i % 8) as u8));
                }
                if i / 8 < other.data@.len() {
                    assert(nth_bit(other.data@, i) == bit_read(other.data@[i / 8], (i % 8) as u8));
                }
            }
            assert(r@ =~= xor_bits(self@, other@));
        }
        r
    }

    /// Imports a buffer from a string: the string's UTF-8 bytes become the
    /// stored bytes, every bit of them valid.
    pub fn from_string(data: &String) -> (r: Self)
        requires
            8 * vstd::utf8::encode_utf8(data@).len() <= usize::MAX,
        ensures
            r.wf(),
            r.spec_bytes() == vstd::utf8::encode_utf8(data@),
            r@.len() == 8 * vstd::utf8::encode_utf8(data@).len(),
            forall|i: int|
                0 <= i < r@.len() ==> #[trigger] r@[i] == nth_bit(
                    vstd::utf8::encode_utf8(data@),
                    i,
                ),
            r.read_pos() == 0,
    {
        let bytes = data.as_str().as_bytes_vec();
        Self::from(bytes.as_slice())
    }

    /// Renders the stored bytes in binary, one group of eight digits per
    /// byte, groups separated by single spaces.
    pub fn as_binary(&self) -> (r: String)
        requires
            self.wf(),
        ensures
            r@ == crate::bits::binary_render(self.spec_bytes()),
    {
        let ghost target = crate::bits::binary_render(self.data@);
        let mut s = String::new();
        let n = self.data.len();
        let mut i: usize = 0;
        proof {
            reveal_strlit("0");
            reveal_strlit("1");
            reveal_strlit(" ");
        }
        while i < n
            invariant
                self.wf(),
                target == crate::bits::binary_render(self.data@),
                n == self.data@.len(),
                i <= n,
                s@ == target.take(
                    if i == 0 {
                        0
                    } else {
                        9 * i - 1
                    },
                ),
            decreases n - i,
        {
            if i > 0 {
                s.append(" ");
                proof {
                    reveal_strlit(" ");
                    assert(target[9 * i - 1] == ' ');
                    assert(s@ =~= target.take(9 * i));
                }
            }
            let byte = self.data[i];
            let mut k: u8 = 0;
            while k < 8
                invariant
                    self.wf(),
                    target == crate::bits::binary_render(self.data@),
                    n == self.data@.len(),
                    i < n,
                    k <= 8,
                    byte == self.data@[i as int],
                    s@ == target.take(9 * i + k),
                decreases 8 - k,
            {
                proof {
                    assert((9 * i + k) / 9 == i as int && (9 * i + k) % 9 == k as int);
                    assert(target[9 * i + k] == (if bit_read(byte, k) {
                        '1'
                    } else {
                        '0'
                    }));
                }
                if Self::byte_get(byte, k) {
                    s.append("1");
                } else {
                    s.append("0");
                }
                proof {
                    reveal_strlit("0");
                    reveal_strlit("1");
                    assert(s@ =~= target.take(9 * i + (k + 1)));
                }
                k = k + 1;
            }
            i = i + 1;
        }
        proof {
            assert(s@ =~= target);
        }
        s
    }

    /// Renders the stored bytes as readable text, replacing byte sequences
    /// that are not valid UTF-8.
    pub fn as_char(&self) -> (r: String)
        requires
            self.wf(),
        ensures
            r@ == lossy_text(self.spec_bytes()),
    {
        utf8_lossy(&self.data)
    }

    /// Helper for `set_bit`: relates the final state to the starting one.
    proof fn lemma_after_set_bit(self, prior: Self, index: usize, value: bool, b: u8)
        requires
            prior.wf(),
            index < usize::MAX,
            self.byte_idx == prior.byte_idx,
            self.bit_idx == prior.bit_idx,
            self.len == if index >= prior.len {
                index + 1
            } else {
                prior.len as int
            },
            self.data@.len() == (self.len + 7) / 8,
            self.data@.len() >= prior.data@.len(),
            ((index / 8) as int) < self.data@.len(),
            forall|bi: int|
                0 <= bi < self.data@.len() && bi != index / 8 ==> #[trigger] self.data@[bi] == (
                if bi < prior.data@.len() {
                    prior.data@[bi]
                } else {
                    0u8
                }),
            b == (if ((index / 8) as int) < prior.data@.len() {
                prior.data@[(index / 8) as int]
            } else {
                0u8
            }),
            forall|j: u8|
                j < 8 ==> #[trigger] bit_read(self.data@[(index / 8) as int], j) == (if j == (index
                    % 8) as u8 {
                    value
                } else {
                    bit_read(b, j)
                }),
        ensures
            self.wf(),
            index < prior@.len() ==> self@ == prior@.update(index as int, value),
            index >= prior@.len() ==> self@ == prior@ + Seq::new(
                (index - prior@.len()) as nat,
                |i: int| false,
            ).push(value),
    {
        crate::bits::lemma_bit_ops();
        assert forall|i: int|
            0 <= i < 8 * self.data@.len() && i != index implies #[trigger] nth_bit(self.data@, i)
            == (if 0 <= i < 8 * prior.data@.len() {
            nth_bit(prior.data@, i)
        } else {
            false
        }) by {
            assert(0 <= i % 8 < 8);
            if i / 8 == index / 8 {
                assert(i % 8 != index % 8);
                assert(bit_read(self.data@[i / 8], (i % 8) as u8) == bit_read(b, (i % 8) as u8));
                if (index / 8) as int >= prior.data@.len() {
                    assert(!bit_read(0u8, (i % 8) as u8));
                }
            } else if i / 8 < prior.data@.len() {
                assert(self.data@[i / 8] == prior.data@[i / 8]);
            }
        }
        assert(nth_bit(self.data@, index as int) == value);
        assert forall|i: int|
            self.len <= i < 8 * self.data@.len() implies !#[trigger] nth_bit(self.data@, i) by {
            assert(i != index);
            if i / 8 != index / 8 && 0 <= i < 8 * prior.data@.len() {
                assert(i >= prior.len);
            }
        }
        if index < prior@.len() {
            assert(self@ =~= prior@.update(index as int, value));
        } else {
            assert(self@ =~= prior@ + Seq::new((index - prior@.len()) as nat, |i: int| false).push(
                value,
            ));
        }
    }
}

} // verus!
