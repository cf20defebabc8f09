//! A growable, exclusively owned block of elements.
//!
//! This is the allocation layer under the bitmap and offset encodings: a
//! construction routine allocates a block from a size estimate, writes
//! elements into it, and grows or shrinks it as the source sequence demands.
//! Once the owning structure is published the buffer is never mutated again.

use vstd::prelude::*;

verus! {

/// An owned, contiguous, growable block of elements.
///
/// `allocate` creates a block of a given length, `reallocate` grows or shrinks it
/// preserving the elements up to the shorter of the two lengths, and `write`
/// stores one element in place. Reads go through `read` or `as_slice`.
#[derive(Debug)]
pub struct Buffer<T> {
    items: Vec<T>,
}

impl<T: Copy> Buffer<T> {
    /// The elements currently held, in order.
    pub closed spec fn view(&self) -> Seq<T> {
        self.items@
    }

    /// Allocate a block of `len` elements, each set to `fill`.
    pub fn allocate(len: usize, fill: T) -> (r: Buffer<T>)
        ensures
            r@.len() == len,
            forall|i: int| 0 <= i < len ==> r@[i] == fill,
    {
        let mut items: Vec<T> = Vec::new();
        let mut n: usize = 0;
        while n < len
            invariant
                n <= len,
                items@.len() == n,
                forall|i: int| 0 <= i < n ==> items@[i] == fill,
            decreases len - n,
        {
            items.push(fill);
            n = n + 1;
        }
        Buffer { items }
    }

    /// Grow or shrink the block to `new_len` elements.
    ///
    /// Elements up to the shorter of the old and new lengths are preserved;
    /// any newly added elements are set to `fill`.
    pub fn reallocate(&mut self, new_len: usize, fill: T)
        ensures
            final(self)@.len() == new_len,
            forall|i: int| 0 <= i < new_len && i < old(self)@.len() ==> final(self)@[i] == old(self)@[i],
            forall|i: int| old(self)@.len() <= i < new_len ==> final(self)@[i] == fill,
    {
        while self.items.len() > new_len
            invariant
                self.items@.len() <= old(self)@.len(),
                self.items@.len() >= new_len || self.items@.len() == old(self)@.len(),
                forall|i: int| 0 <= i < self.items@.len() ==> self.items@[i] == old(self)@[i],
            decreases self.items.len(),
        {
            let ghost before = self.items@;
            self.items.pop();
            proof {
                assert(forall|i: int|
                    0 <= i < self.items@.len() ==> self.items@[i] == before.subrange(
                        0,
                        before.len() - 1,
                    )[i]);
            }
        }
        while self.items.len() < new_len
            invariant
                self.items@.len() <= new_len,
                self.items@.len() >= old(self)@.len() || self.items@.len() >= new_len,
                forall|i: int| 0 <= i < self.items@.len() && i < old(self)@.len() ==> self.items@[i]
                    == old(self)@[i],
                forall|i: int| old(self)@.len() <= i < self.items@.len() ==> self.items@[i] == fill,
            decreases new_len - self.items.len(),
        {
            self.items.push(fill);
        }
    }

    /// The number of elements in the block.
    pub fn len(&self) -> (r: usize)
        ensures
            r == self@.len(),
    {
        self.items.len()
    }

    /// Store `value` at position `index`.
    pub fn write(&mut self, index: usize, value: T)
        requires
            index < old(self)@.len(),
        ensures
            final(self)@ == old(self)@.update(index as int, value),
    {
        self.items[index] = value;
        proof {
            assert(self.items@ =~= old(self)@.update(index as int, value));
        }
    }

    /// The element at position `index`.
    pub fn read(&self, index: usize) -> (r: T)
        requires
            index < self@.len(),
        ensures
            r == self@[index as int],
    {
        self.items[index]
    }

    /// A read-only view of all elements.
    pub fn as_slice(&self) -> (r: &[T])
        ensures
            r@ == self@,
    {
        self.items.as_slice()
    }

    /// A copy of the block holding the same elements.
    pub fn duplicate(&self) -> (r: Buffer<T>)
        ensures
            r@ == self@,
    {
        let mut items: Vec<T> = Vec::new();
        let mut n: usize = 0;
        while n < self.items.len()
            invariant
                n <= self.items@.len(),
                items@ == self.items@.take(n as int),
            decreases self.items.len() - n,
        {
            items.push(self.items[n]);
            n = n + 1;
            proof {
                assert(items@ =~= self.items@.take(n as int));
            }
        }
        proof {
            assert(items@ =~= self.items@);
        }
        Buffer { items }
    }
}

} // verus!
