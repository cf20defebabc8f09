//! An immutable collection of bits.
//!
//! Bits are packed least-significant-first within each byte: logical index
//! `8 * j + i` is bit `i` of byte `j`. A bitmap is built in one pass from a
//! boolean sequence and is read only afterwards.

use vstd::prelude::*;
use crate::buffer::Buffer;

verus! {

/// The logical bit at index `i` of a packed byte sequence,
/// least-significant-first within each byte.
pub open spec fn nth_bit(bytes: Seq<u8>, i: int) -> bool
    recommends
        0 <= i,
        i / 8 < bytes.len(),
{
    (bytes[i / 8] >> ((i % 8) as u8)) & 1u8 == 1u8
}

/// The number of bytes needed to hold `bits` bits: `bits / 8`, rounded up.
pub open spec fn byte_count(bits: int) -> int {
    (bits + 7) / 8
}

/// The number of set bits in a boolean sequence.
pub open spec fn count_trues(s: Seq<bool>) -> int
    decreases s.len(),
{
    if s.len() == 0 {
        0
    } else {
        count_trues(s.drop_last()) + if s.last() {
            1int
        } else {
            0int
        }
    }
}

/// An immutable collection of bits.
#[derive(Debug)]
pub struct Bitmap {
    /// The number of bits stored in the bitmap.
    bits: usize,
    /// The bits, packed least-significant-first into bytes.
    buffer: Buffer<u8>,
}

impl View for Bitmap {
    type V = Seq<bool>;

    /// The logical boolean sequence this bitmap stores.
    closed spec fn view(&self) -> Seq<bool> {
        Seq::new(self.bits as nat, |i: int| nth_bit(self.buffer@, i))
    }
}

impl Bitmap {
    /// The byte buffer holds exactly as many bytes as the bit count rounds up
    /// to, and the unused high bits of the final byte are clear.
    #[verifier::type_invariant]
    spec fn well_formed(self) -> bool {
        &&& self.buffer@.len() == byte_count(self.bits as int)
        &&& forall|i: int| self.bits <= i < 8 * self.buffer@.len() ==> !nth_bit(self.buffer@, i)
    }

    /// The total number of bits.
    pub fn len(&self) -> (r: usize)
        ensures
            r == self@.len(),
    {
        self.bits
    }

    /// Whether the bitmap holds no bits.
    pub fn is_empty(&self) -> (r: bool)
        ensures
            r == (self@.len() == 0),
    {
        self.bits == 0
    }

    /// Whether the bit at `index` is set.
    pub fn is_valid(&self, index: usize) -> (r: bool)
        requires
            index < self@.len(),
        ensures
            r == self@[index as int],
    {
        proof {
            use_type_invariant(self);
        }
        let byte = self.buffer.read(index / 8);
        let shift = (index % 8) as u8;
        (byte >> shift) & 1u8 == 1u8
    }

    /// Whether the bit at `index` is clear.
    pub fn is_null(&self, index: usize) -> (r: bool)
        requires
            index < self@.len(),
        ensures
            r == !self@[index as int],
    {
        !self.is_valid(index)
    }

    /// The bit at `index`.
    pub fn index(&self, index: usize) -> (r: bool)
        requires
            index < self@.len(),
        ensures
            r == self@[index as int],
    {
        self.is_valid(index)
    }

    /// The number of null entries this layer reports: always zero, because raw
    /// bit storage assigns no meaning to its bits.
    pub fn null_count(&self) -> (r: usize)
        ensures
            r == 0,
    {
        0
    }

    /// The number of entries this layer reports valid: the full bit count.
    pub fn valid_count(&self) -> (r: usize)
        ensures
            r == self@.len(),
    {
        self.bits
    }

    /// The packed bytes backing the bitmap.
    pub fn as_ref(&self) -> (r: &[u8])
        ensures
            r@.len() == byte_count(self@.len() as int),
            forall|i: int| 0 <= i < self@.len() ==> nth_bit(r@, i) == self@[i],
            forall|i: int| self@.len() <= i < 8 * r@.len() ==> !nth_bit(r@, i),
    {
        proof {
            use_type_invariant(self);
        }
        self.buffer.as_slice()
    }
}

impl Bitmap {
    /// Build a bitmap from a boolean sequence, seeding the backing allocation
    /// from `size_hint`, a prediction of how many bits follow the first one.
    ///
    /// The hint only steers allocation: whether it undershoots, matches, or
    /// overshoots the true count, the result holds exactly the given bits in
    /// exactly as many bytes as they round up to. When the hint falls short
    /// the buffer grows one byte at a time; when it overshoots the buffer is
    /// shrunk to the exact byte count before the bitmap is published.
    pub fn from_iter_with_hint(values: &Vec<bool>, size_hint: usize) -> (r: Bitmap)
        ensures
            r@ == values@,
    {
        if values.len() == 0 {
            let r = Bitmap::default();
            proof {
                assert(r@ =~= values@);
            }
            return r;
        }
        let mut buffer = Buffer::allocate(size_hint / 8 + 1, 0u8);
        let mut byte: u8 = 0;
        let mut byte_index: usize = 0;
        let mut i: usize = 0;
        proof {
            assert forall|j: u8| j < 8 implies (byte >> j) & 1u8 == 0u8 by {
                lemma_zero_has_no_bits(j);
            }
        }
        while i < values.len()
            invariant
                i <= values@.len(),
                byte_index == i / 8,
                byte_index <= buffer@.len(),
                forall|k: int| 0 <= k < 8 * byte_index ==> nth_bit(buffer@, k) == values@[k],
                forall|j: u8| i % 8 <= j < 8 ==> (byte >> j) & 1u8 == 0u8,
                forall|k: int| 8 * byte_index <= k < i ==> ((byte >> ((k % 8) as u8)) & 1u8
                    == 1u8) == values@[k],
            decreases values@.len() - i,
        {
            let bit = values[i];
            let sh: u8 = (i % 8) as u8;
            if bit {
                let ghost prev: u8 = byte;
                byte = byte | (1u8 << sh);
                proof {
                    assert forall|j: u8| j < 8 implies (byte >> j) & 1u8 == (if j == sh {
                        1u8
                    } else {
                        (prev >> j) & 1u8
                    }) by {
                        lemma_or_sets_one_bit(prev, sh, j);
                    }
                }
            }
            if i % 8 == 7 {
                if byte_index == buffer.len() {
                    buffer.reallocate(byte_index + 1, 0u8);
                }
                buffer.write(byte_index, byte);
                proof {
                    assert forall|k: int| 0 <= k < 8 * (byte_index + 1) implies nth_bit(
                        buffer@,
                        k,
                    ) == values@[k] by {
                        assert(k / 8 <= byte_index);
                        if k / 8 == byte_index {
                            assert(k % 8 == k - 8 * byte_index);
                        }
                    }
                    assert forall|j: u8| j < 8 implies (0u8 >> j) & 1u8 == 0u8 by {
                        lemma_zero_has_no_bits(j);
                    }
                }
                byte = 0;
                byte_index = byte_index + 1;
            }
            i = i + 1;
        }
        if i % 8 != 0 {
            if byte_index == buffer.len() {
                buffer.reallocate(byte_index + 1, 0u8);
            }
            buffer.write(byte_index, byte);
            proof {
                assert forall|k: int| 0 <= k < i implies nth_bit(buffer@, k) == values@[k] by {
                    assert(k / 8 <= byte_index);
                    if k / 8 == byte_index {
                        assert(k % 8 == k - 8 * byte_index);
                    }
                }
                assert forall|k: int| i <= k < 8 * (byte_index + 1) implies !nth_bit(
                    buffer@,
                    k,
                ) by {
                    assert(k / 8 == byte_index && k % 8 == k - 8 * byte_index);
                }
            }
            byte_index = byte_index + 1;
        }
        let needed: usize = values.len() / 8 + if values.len() % 8 != 0 {
            1
        } else {
            0
        };
        proof {
            assert(needed == byte_count(values@.len() as int));
            assert(needed == byte_index);
        }
        let ghost packed = buffer@;
        if buffer.len() != needed {
            buffer.reallocate(needed, 0u8);
            proof {
                assert(forall|k: int|
                    0 <= k < 8 * needed ==> nth_bit(buffer@, k) == nth_bit(packed, k));
            }
        }
        let r = Bitmap { bits: values.len(), buffer };
        proof {
            assert(r@ =~= values@);
        }
        r
    }

    /// The stored bits as a boolean sequence, in index order.
    pub fn into_iter(&self) -> (r: Vec<bool>)
        ensures
            r@ == self@,
    {
        let mut out: Vec<bool> = Vec::new();
        let mut i: usize = 0;
        while i < self.len()
            invariant
                i <= self@.len(),
                out@.len() == i,
                forall|k: int| 0 <= k < i ==> out@[k] == self@[k],
            decreases self@.len() - i,
        {
            out.push(self.is_valid(i));
            i = i + 1;
        }
        proof {
            assert(out@ =~= self@);
        }
        out
    }

    /// The number of set bits.
    pub fn count_ones(&self) -> (r: usize)
        ensures
            r == count_trues(self@),
    {
        let mut count: usize = 0;
        let mut i: usize = 0;
        while i < self.len()
            invariant
                i <= self@.len(),
                count <= i,
                count == count_trues(self@.take(i as int)),
            decreases self@.len() - i,
        {
            let bit = self.is_valid(i);
            proof {
                assert(self@.take(i + 1).drop_last() =~= self@.take(i as int));
                assert(self@.take(i + 1).last() == self@[i as int]);
            }
            if bit {
                count = count + 1;
            }
            i = i + 1;
        }
        proof {
            assert(self@.take(self@.len() as int) =~= self@);
        }
        count
    }

    /// The number of clear bits.
    pub fn count_zeros(&self) -> (r: usize)
        ensures
            r + count_trues(self@) == self@.len(),
    {
        proof {
            lemma_count_trues_bounds(self@);
        }
        self.len() - self.count_ones()
    }

    /// Build a bitmap from a boolean sequence in one pass.
    pub fn from_iter(values: &Vec<bool>) -> (r: Bitmap)
        ensures
            r@ == values@,
    {
        if values.len() == 0 {
            Bitmap::from_iter_with_hint(values, 0)
        } else {
            Bitmap::from_iter_with_hint(values, values.len() - 1)
        }
    }
}

/// Or-ing in a one-bit mask sets exactly the masked bit and leaves the rest.
proof fn lemma_or_sets_one_bit(b: u8, sh: u8, j: u8)
    by (bit_vector)
    requires
        sh < 8,
        j < 8,
    ensures
        ((b | (1u8 << sh)) >> j) & 1u8 == (if j == sh {
            1u8
        } else {
            (b >> j) & 1u8
        }),
{
}

/// A boolean sequence holds between zero and `len` set entries.
proof fn lemma_count_trues_bounds(s: Seq<bool>)
    ensures
        0 <= count_trues(s) <= s.len(),
    decreases s.len(),
{
    if s.len() > 0 {
        lemma_count_trues_bounds(s.drop_last());
    }
}

/// Every bit of the zero byte is clear.
proof fn lemma_zero_has_no_bits(j: u8)
    by (bit_vector)
    requires
        j < 8,
    ensures
        (0u8 >> j) & 1u8 == 0u8,
{
}

impl Default for Bitmap {
    /// The canonical empty bitmap: no bits and no backing bytes.
    fn default() -> (r: Self)
        ensures
            r@.len() == 0,
    {
        Bitmap { bits: 0, buffer: Buffer::allocate(0, 0u8) }
    }
}

impl PartialEq for Bitmap {
    /// Equality compares the logical bit sequences alone; how many bytes back
    /// them plays no part.
    fn eq(&self, other: &Self) -> (r: bool) {
        if self.len() != other.len() {
            return false;
        }
        let mut i: usize = 0;
        while i < self.len()
            invariant
                i <= self@.len(),
                self@.len() == other@.len(),
                forall|k: int| 0 <= k < i ==> self@[k] == other@[k],
            decreases self@.len() - i,
        {
            if self.is_valid(i) != other.is_valid(i) {
                return false;
            }
            i = i + 1;
        }
        proof {
            assert(self@ =~= other@);
        }
        true
    }
}

impl vstd::std_specs::cmp::PartialEqSpecImpl for Bitmap {
    open spec fn obeys_eq_spec() -> bool {
        true
    }

    open spec fn eq_spec(&self, other: &Bitmap) -> bool {
        self@ == other@
    }
}

impl Eq for Bitmap {

}

impl Clone for Bitmap {
    /// A copy holding the same logical bit sequence.
    fn clone(&self) -> (r: Self)
        ensures
            r@ == self@,
    {
        proof {
            use_type_invariant(self);
        }
        let r = Bitmap { bits: self.bits, buffer: self.buffer.duplicate() };
        proof {
            assert(r@ =~= self@);
        }
        r
    }
}

} // verus!
