//! Offsets for variable sized arrays.
//!
//! An offset structure stores the concatenated elements of a sequence of
//! variable-length items in one flat data buffer, delimited by a monotonic
//! buffer of `N + 1` offsets for `N` items. A nullable offset structure
//! additionally owns a validity bitmap of one bit per item; for an absent
//! item the running offset is repeated and the data buffer is untouched.

use vstd::prelude::*;
use crate::bitmap::Bitmap;

verus! {

/// The widths permitted for offset values form a closed set.
///
/// This trait is sealed to prevent downstream implementations.
pub trait Sealed {

}

impl Sealed for i32 {

}

impl Sealed for i64 {

}

/// Types representing offset values.
///
/// An offset element is a signed integer wide enough to address positions in
/// the data buffer; accumulating item lengths into it is always checked
/// against its representable range.
pub trait OffsetElement: Sealed + Sized + Copy {
    /// The mathematical value of this offset element.
    spec fn to_int(self) -> int;

    /// The largest value the width can represent.
    spec fn max_value() -> int;

    /// The width represents at least one positive value.
    proof fn max_value_positive()
        ensures
            Self::max_value() >= 1,
    ;

    /// The zero offset, seeded before the first item.
    fn zero() -> (r: Self)
        ensures
            r.to_int() == 0,
    ;

    /// Advance a non-negative running offset by an item length, refusing to
    /// leave the representable range. The largest representable value itself
    /// is a valid offset.
    fn checked_add_len(self, len: usize) -> (r: Option<Self>)
        requires
            self.to_int() >= 0,
        ensures
            match r {
                Some(v) => self.to_int() + len <= Self::max_value() && v.to_int() == self.to_int()
                    + len,
                None => self.to_int() + len > Self::max_value(),
            },
    ;
}

impl OffsetElement for i32 {
    open spec fn to_int(self) -> int {
        self as int
    }

    open spec fn max_value() -> int {
        i32::MAX as int
    }

    proof fn max_value_positive() {
    }

    fn zero() -> (r: Self) {
        0
    }

    fn checked_add_len(self, len: usize) -> (r: Option<Self>) {
        let sum: u128 = self as u128 + len as u128;
        if sum <= i32::MAX as u128 {
            Some(sum as i32)
        } else {
            None
        }
    }
}

impl OffsetElement for i64 {
    open spec fn to_int(self) -> int {
        self as int
    }

    open spec fn max_value() -> int {
        i64::MAX as int
    }

    proof fn max_value_positive() {
    }

    fn zero() -> (r: Self) {
        0
    }

    fn checked_add_len(self, len: usize) -> (r: Option<Self>) {
        let sum: u128 = self as u128 + len as u128;
        if sum <= i64::MAX as u128 {
            Some(sum as i64)
        } else {
            None
        }
    }
}

/// Construction failed because a running offset left the representable range
/// of the chosen offset width.
#[derive(Clone, Copy, Debug, PartialEq, Eq, Structural)]
pub struct OffsetOverflowError;

/// The logical contents of a sequence of items.
pub open spec fn item_views<T>(items: Seq<Vec<T>>) -> Seq<Seq<T>> {
    Seq::new(items.len(), |i: int| items[i]@)
}

/// The logical contents of one optional item.
pub open spec fn opt_view<T>(item: Option<Vec<T>>) -> Option<Seq<T>> {
    match item {
        Some(v) => Some(v@),
        None => None,
    }
}

/// The logical contents of a sequence of optional items.
pub open spec fn opt_item_views<T>(items: Seq<Option<Vec<T>>>) -> Seq<Option<Seq<T>>> {
    Seq::new(items.len(), |i: int| opt_view(items[i]))
}

/// The summed length of a sequence of items.
pub open spec fn total_len<T>(items: Seq<Seq<T>>) -> int
    decreases items.len(),
{
    if items.len() == 0 {
        0
    } else {
        total_len(items.drop_last()) + items.last().len()
    }
}

/// The items of a sequence, concatenated in order.
pub open spec fn concat_items<T>(items: Seq<Seq<T>>) -> Seq<T>
    decreases items.len(),
{
    if items.len() == 0 {
        Seq::empty()
    } else {
        concat_items(items.drop_last()) + items.last()
    }
}

/// The length an optional item contributes: zero when absent.
pub open spec fn opt_len<T>(item: Option<Seq<T>>) -> int {
    match item {
        Some(s) => s.len() as int,
        None => 0,
    }
}

/// The summed length of the present items of a sequence.
pub open spec fn total_opt_len<T>(items: Seq<Option<Seq<T>>>) -> int
    decreases items.len(),
{
    if items.len() == 0 {
        0
    } else {
        total_opt_len(items.drop_last()) + opt_len(items.last())
    }
}

/// The present items of a sequence, concatenated in order; absent items
/// contribute nothing.
pub open spec fn concat_present<T>(items: Seq<Option<Seq<T>>>) -> Seq<T>
    decreases items.len(),
{
    if items.len() == 0 {
        Seq::empty()
    } else {
        concat_present(items.drop_last()) + (match items.last() {
            Some(s) => s,
            None => Seq::empty(),
        })
    }
}

/// One validity bit per optional item: set exactly for the present ones.
pub open spec fn validity_of<T>(items: Seq<Option<Seq<T>>>) -> Seq<bool> {
    Seq::new(items.len(), |i: int| items[i] is Some)
}

/// Offsets for variable sized array data, generic over the offset width `O`
/// and over whether a validity bitmap is carried.
///
/// The `NULLABLE` parameter selects the shape at build time: the plain shape
/// never allocates or touches bitmap storage, while the nullable shape always
/// owns a bitmap of one bit per item. Both shapes expose the same read
/// surface over the data and offset buffers.
pub struct Offset<const NULLABLE: bool, T, O: OffsetElement> {
    data: Vec<T>,
    offsets: Vec<O>,
    validity: Option<Bitmap>,
}

impl<const NULLABLE: bool, T, O: OffsetElement> Offset<NULLABLE, T, O> {
    /// The offsets buffer holds one more entry than the structure has items;
    /// it starts at zero, never decreases, stays within the offset width's
    /// range, and ends at the data buffer's length. The validity bitmap is
    /// carried exactly in the nullable shape, with one bit per item.
    #[verifier::type_invariant]
    spec fn well_formed(self) -> bool {
        &&& self.offsets@.len() >= 1
        &&& self.offsets@[0].to_int() == 0
        &&& forall|i: int|
            0 <= i < self.offsets@.len() - 1 ==> #[trigger] self.offsets@[i].to_int()
                <= self.offsets@[i + 1].to_int()
        &&& forall|i: int|
            0 <= i < self.offsets@.len() ==> 0 <= #[trigger] self.offsets@[i].to_int()
                <= O::max_value()
        &&& self.offsets@.last().to_int() == self.data@.len()
        &&& if NULLABLE {
            match self.validity {
                Some(b) => b@.len() + 1 == self.offsets@.len(),
                None => false,
            }
        } else {
            self.validity is None
        }
    }

    /// The flat buffer of concatenated item elements.
    pub closed spec fn data_view(&self) -> Seq<T> {
        self.data@
    }

    /// The offset values, as mathematical integers.
    pub closed spec fn offsets_view(&self) -> Seq<int> {
        Seq::new(self.offsets@.len(), |i: int| self.offsets@[i].to_int())
    }

    /// The validity bits, in the nullable shape only.
    pub closed spec fn validity_view(&self) -> Option<Seq<bool>> {
        match self.validity {
            Some(b) => Some(b@),
            None => None,
        }
    }

    /// The number of logical items: one less than the offsets buffer holds.
    pub fn len(&self) -> (r: usize)
        ensures
            r + 1 == self.offsets_view().len(),
    {
        proof {
            use_type_invariant(self);
        }
        self.offsets.len() - 1
    }

    /// The flat data buffer; item `i` spans `offsets[i]..offsets[i + 1]` of it.
    pub fn buffer_ref(&self) -> (r: &Vec<T>)
        ensures
            r@ == self.data_view(),
    {
        &self.data
    }

    /// The raw offsets buffer. Whatever the structure was built from, it
    /// holds one entry more than there are items, starts at zero, never
    /// decreases, and ends at the data buffer's length.
    pub fn offset_buffer(&self) -> (r: &Vec<O>)
        ensures
            r@.len() == self.offsets_view().len(),
            forall|i: int| 0 <= i < r@.len() ==> #[trigger] r@[i].to_int() == self.offsets_view()[i],
            r@.len() >= 1,
            self.offsets_view()[0] == 0,
            forall|i: int|
                0 <= i < self.offsets_view().len() - 1 ==> #[trigger] self.offsets_view()[i]
                    <= self.offsets_view()[i + 1],
            forall|i: int|
                0 <= i < self.offsets_view().len() ==> 0 <= #[trigger] self.offsets_view()[i]
                    <= O::max_value(),
            self.offsets_view().last() == self.data_view().len(),
    {
        proof {
            use_type_invariant(self);
        }
        &self.offsets
    }
}

/// Extending a prefix of items by one adds that item's length to the running
/// total and its elements to the running concatenation.
pub proof fn lemma_prefix_step<T>(items: Seq<Seq<T>>, i: int)
    requires
        0 <= i < items.len(),
    ensures
        total_len(items.take(i + 1)) == total_len(items.take(i)) + items[i].len(),
        concat_items(items.take(i + 1)) == concat_items(items.take(i)) + items[i],
{
    assert(items.take(i + 1).drop_last() =~= items.take(i));
    assert(items.take(i + 1).last() == items[i]);
}

/// The summed length of a sequence of items is never negative.
pub proof fn lemma_total_len_nonneg<T>(items: Seq<Seq<T>>)
    ensures
        total_len(items) >= 0,
    decreases items.len(),
{
    if items.len() > 0 {
        lemma_total_len_nonneg(items.drop_last());
    }
}

/// A prefix of a sequence of items never sums to more than the whole.
pub proof fn lemma_prefix_le<T>(items: Seq<Seq<T>>, i: int)
    requires
        0 <= i <= items.len(),
    ensures
        total_len(items.take(i)) <= total_len(items),
    decreases items.len(),
{
    if i == items.len() {
        assert(items.take(i) =~= items);
    } else {
        assert(items.take(i) =~= items.drop_last().take(i));
        lemma_prefix_le(items.drop_last(), i);
    }
}

impl<T, O: OffsetElement> Offset<false, T, O> {
    /// Build a plain offset structure from a sequence of variable-length
    /// items, in one pass.
    ///
    /// Each item's elements are appended to the data buffer and the new
    /// running element count is appended to the offsets buffer, after offset
    /// zero is seeded before the first item. Construction fails, surfacing
    /// the failure to the caller, exactly when the running count would leave
    /// the offset width's representable range; the largest representable
    /// value itself is still a valid offset. No bitmap storage is ever
    /// allocated on this path.
    #[verifier::rlimit(50)]
    pub fn from_iter(items: Vec<Vec<T>>) -> (r: Result<Self, OffsetOverflowError>)
        ensures
            match r {
                Ok(o) => {
                    &&& o.offsets_view().len() == items@.len() + 1
                    &&& forall|i: int|
                        0 <= i <= items@.len() ==> o.offsets_view()[i] == total_len(
                            #[trigger] item_views(items@).take(i),
                        )
                    &&& o.data_view() == concat_items(item_views(items@))
                    &&& o.validity_view() is None
                    &&& total_len(item_views(items@)) <= O::max_value()
                },
                Err(_) => total_len(item_views(items@)) > O::max_value(),
            },
    {
        let ghost orig: Seq<Seq<T>> = item_views(items@);
        let mut rest = items;
        let mut data: Vec<T> = Vec::new();
        let mut offsets: Vec<O> = Vec::new();
        let mut state: O = O::zero();
        offsets.push(state);
        let ghost mut k: int = 0;
        proof {
            O::max_value_positive();
            assert(orig.take(0) =~= Seq::<Seq<T>>::empty());
        }
        while rest.len() > 0
            invariant
                orig == item_views(items@),
                0 <= k,
                k + rest@.len() == orig.len(),
                forall|j: int| 0 <= j < rest@.len() ==> #[trigger] rest@[j]@ == orig[k + j],
                offsets@.len() == k + 1,
                forall|i: int|
                    0 <= i <= k ==> #[trigger] offsets@[i].to_int() == total_len(orig.take(i)),
                state == offsets@.last(),
                state.to_int() == total_len(orig.take(k)),
                state.to_int() == data@.len(),
                data@ == concat_items(orig.take(k)),
                0 <= state.to_int() <= O::max_value(),
            decreases rest@.len(),
        {
            let ghost before = rest@;
            let mut item = rest.remove(0);
            proof {
                assert(item@ == orig[k]);
                assert(forall|j: int|
                    0 <= j < rest@.len() ==> #[trigger] rest@[j]@ == before[j + 1]@);
            }
            match state.checked_add_len(item.len()) {
                Some(next) => {
                    data.append(&mut item);
                    offsets.push(next);
                    state = next;
                    proof {
                        lemma_prefix_step(orig, k);
                        k = k + 1;
                    }
                },
                None => {
                    proof {
                        lemma_prefix_step(orig, k);
                        lemma_prefix_le(orig, k + 1);
                        assert(total_len(orig) > O::max_value());
                    }
                    return Err(OffsetOverflowError);
                },
            }
        }
        proof {
            assert(orig.take(k) =~= orig);
            assert forall|i: int| 0 <= i < offsets@.len() - 1 implies #[trigger] offsets@[i].to_int()
                <= offsets@[i + 1].to_int() by {
                lemma_prefix_step(orig, i);
                lemma_total_len_nonneg(orig.take(i));
            }
            assert forall|i: int| 0 <= i < offsets@.len() implies 0 <= #[trigger] offsets@[i].to_int()
                <= O::max_value() by {
                lemma_total_len_nonneg(orig.take(i));
                lemma_prefix_le(orig, i);
            }
        }
        Ok(Offset { data, offsets, validity: None })
    }
}

/// Extending a prefix of optional items by one adds the present length of
/// that item to the running total and its elements, if any, to the running
/// concatenation.
pub proof fn lemma_opt_prefix_step<T>(items: Seq<Option<Seq<T>>>, i: int)
    requires
        0 <= i < items.len(),
    ensures
        total_opt_len(items.take(i + 1)) == total_opt_len(items.take(i)) + opt_len(items[i]),
        concat_present(items.take(i + 1)) == concat_present(items.take(i)) + (match items[i] {
            Some(s) => s,
            None => Seq::empty(),
        }),
{
    assert(items.take(i + 1).drop_last() =~= items.take(i));
    assert(items.take(i + 1).last() == items[i]);
}

/// The summed present length of a sequence of optional items is never
/// negative.
pub proof fn lemma_total_opt_len_nonneg<T>(items: Seq<Option<Seq<T>>>)
    ensures
        total_opt_len(items) >= 0,
    decreases items.len(),
{
    if items.len() > 0 {
        lemma_total_opt_len_nonneg(items.drop_last());
    }
}

/// A prefix of a sequence of optional items never sums to more than the
/// whole.
pub proof fn lemma_opt_prefix_le<T>(items: Seq<Option<Seq<T>>>, i: int)
    requires
        0 <= i <= items.len(),
    ensures
        total_opt_len(items.take(i)) <= total_opt_len(items),
    decreases items.len(),
{
    if i == items.len() {
        assert(items.take(i) =~= items);
    } else {
        assert(items.take(i) =~= items.drop_last().take(i));
        lemma_opt_prefix_le(items.drop_last(), i);
    }
}

impl<T, O: OffsetElement> Offset<true, T, O> {
    /// Build a nullable offset structure from a sequence of optional
    /// variable-length items, in one pass.
    ///
    /// A present item advances the running element count, appends its
    /// elements to the data buffer, appends the new count to the offsets
    /// buffer, and sets its validity bit. An absent item repeats the
    /// unchanged count, clears its bit, and leaves the data buffer untouched.
    /// The validity bitmap holds one bit per item; the offsets buffer still
    /// holds one entry more than there are items. Construction fails,
    /// surfacing the failure to the caller, exactly when the running count
    /// would leave the offset width's representable range.
    #[verifier::rlimit(50)]
    pub fn from_iter(items: Vec<Option<Vec<T>>>) -> (r: Result<Self, OffsetOverflowError>)
        ensures
            match r {
                Ok(o) => {
                    &&& o.offsets_view().len() == items@.len() + 1
                    &&& forall|i: int|
                        0 <= i <= items@.len() ==> o.offsets_view()[i] == total_opt_len(
                            #[trigger] opt_item_views(items@).take(i),
                        )
                    &&& o.data_view() == concat_present(opt_item_views(items@))
                    &&& o.validity_view() == Some(validity_of(opt_item_views(items@)))
                    &&& total_opt_len(opt_item_views(items@)) <= O::max_value()
                },
                Err(_) => total_opt_len(opt_item_views(items@)) > O::max_value(),
            },
    {
        let ghost orig: Seq<Option<Seq<T>>> = opt_item_views(items@);
        let mut rest = items;
        let mut data: Vec<T> = Vec::new();
        let mut offsets: Vec<O> = Vec::new();
        let mut bits: Vec<bool> = Vec::new();
        let mut state: O = O::zero();
        offsets.push(state);
        let ghost mut k: int = 0;
        proof {
            O::max_value_positive();
            assert(orig.take(0) =~= Seq::<Option<Seq<T>>>::empty());
        }
        while rest.len() > 0
            invariant
                orig == opt_item_views(items@),
                0 <= k,
                k + rest@.len() == orig.len(),
                forall|j: int| 0 <= j < rest@.len() ==> opt_view(#[trigger] rest@[j]) == orig[k + j],
                bits@.len() == k,
                forall|i: int| 0 <= i < k ==> bits@[i] == (orig[i] is Some),
                offsets@.len() == k + 1,
                forall|i: int|
                    0 <= i <= k ==> #[trigger] offsets@[i].to_int() == total_opt_len(orig.take(i)),
                state == offsets@.last(),
                state.to_int() == total_opt_len(orig.take(k)),
                state.to_int() == data@.len(),
                data@ == concat_present(orig.take(k)),
                0 <= state.to_int() <= O::max_value(),
            decreases rest@.len(),
        {
            let ghost before = rest@;
            let opt = rest.remove(0);
            proof {
                assert(opt_view(opt) == orig[k]);
                assert(forall|j: int|
                    0 <= j < rest@.len() ==> opt_view(#[trigger] rest@[j]) == opt_view(
                        before[j + 1],
                    ));
            }
            match opt {
                Some(item) => {
                    let mut item = item;
                    match state.checked_add_len(item.len()) {
                        Some(next) => {
                            data.append(&mut item);
                            offsets.push(next);
                            bits.push(true);
                            state = next;
                            proof {
                                lemma_opt_prefix_step(orig, k);
                                k = k + 1;
                            }
                        },
                        None => {
                            proof {
                                lemma_opt_prefix_step(orig, k);
                                lemma_opt_prefix_le(orig, k + 1);
                            }
                            return Err(OffsetOverflowError);
                        },
                    }
                },
                None => {
                    offsets.push(state);
                    bits.push(false);
                    proof {
                        lemma_opt_prefix_step(orig, k);
                        k = k + 1;
                        assert(data@ + Seq::<T>::empty() =~= data@);
                    }
                },
            }
        }
        let validity = Bitmap::from_iter(&bits);
        proof {
            assert(orig.take(k) =~= orig);
            assert(validity@ =~= validity_of(orig));
            assert forall|i: int| 0 <= i < offsets@.len() - 1 implies #[trigger] offsets@[i].to_int()
                <= offsets@[i + 1].to_int() by {
                lemma_opt_prefix_step(orig, i);
            }
            assert forall|i: int| 0 <= i < offsets@.len() implies 0 <= #[trigger] offsets@[i].to_int()
                <= O::max_value() by {
                lemma_total_opt_len_nonneg(orig.take(i));
                lemma_opt_prefix_le(orig, i);
            }
        }
        Ok(Offset { data, offsets, validity: Some(validity) })
    }

    /// The validity bitmap, carried by the nullable shape alone and always
    /// sized to the element count: one bit per item.
    pub fn validity_bitmap(&self) -> (r: &Bitmap)
        ensures
            Some(r@) == self.validity_view(),
            r@.len() + 1 == self.offsets_view().len(),
    {
        proof {
            use_type_invariant(self);
        }
        match &self.validity {
            Some(b) => b,
            None => vstd::pervasive::unreached(),
        }
    }
}

} // verus!
