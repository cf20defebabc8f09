use columnar::offset::{Offset, OffsetElement, OffsetOverflowError};

#[test]
fn non_nullable_offsets() {
    let items = vec![vec![1u8, 2], vec![3], vec![]];
    let offset = Offset::<false, u8, i32>::from_iter(items).unwrap();
    assert_eq!(offset.len(), 3);
    let offsets: &Vec<i32> = offset.offset_buffer();
    assert_eq!(offsets.len(), 4);
    assert_eq!(offsets[0], 0);
    assert_eq!(offsets, &vec![0, 2, 3, 3]);
    assert_eq!(offset.buffer_ref(), &vec![1u8, 2, 3]);

    let offset = Offset::<false, u8, i64>::from_iter(vec![vec![5u8], vec![6, 7]]).unwrap();
    assert_eq!(offset.offset_buffer(), &vec![0i64, 1, 3]);
    assert_eq!(offset.buffer_ref(), &vec![5u8, 6, 7]);
}

#[test]
fn nullable_offsets() {
    let items = vec![Some(vec![97u8]), None, Some(vec![98u8, 99])];
    let offset = Offset::<true, u8, i32>::from_iter(items).unwrap();
    assert_eq!(offset.len(), 3);
    assert_eq!(offset.offset_buffer(), &vec![0, 1, 1, 3]);
    assert_eq!(offset.buffer_ref(), &vec![97u8, 98, 99]);
    let validity = offset.validity_bitmap();
    assert_eq!(validity.len(), 3);
    assert!(validity.is_valid(0));
    assert!(validity.is_null(1));
    assert!(validity.is_valid(2));
}

#[test]
fn nullable_offsets_i64() {
    let items = vec![None, Some(vec![7u8, 8, 9]), None];
    let offset = Offset::<true, u8, i64>::from_iter(items).unwrap();
    assert_eq!(offset.len(), 3);
    assert_eq!(offset.offset_buffer(), &vec![0i64, 0, 3, 3]);
    assert_eq!(offset.buffer_ref(), &vec![7u8, 8, 9]);
    assert_eq!(offset.validity_bitmap().into_iter(), vec![false, true, false]);
}

#[test]
fn no_items() {
    let offset = Offset::<false, u8, i32>::from_iter(vec![]).unwrap();
    assert_eq!(offset.len(), 0);
    assert_eq!(offset.offset_buffer(), &vec![0]);
    assert_eq!(offset.buffer_ref(), &Vec::<u8>::new());

    let offset = Offset::<true, u8, i32>::from_iter(vec![]).unwrap();
    assert_eq!(offset.len(), 0);
    assert_eq!(offset.validity_bitmap().len(), 0);
}

#[test]
fn nullable_allocates_bitmap_sized_to_items() {
    let items: Vec<Option<Vec<u8>>> = (0..20).map(|i| {
        if i % 2 == 0 {
            Some(vec![i as u8])
        } else {
            None
        }
    })
    .collect();
    let offset = Offset::<true, u8, i32>::from_iter(items).unwrap();
    assert_eq!(offset.validity_bitmap().len(), 20);
    let expected: Vec<bool> = (0..20).map(|i| i % 2 == 0).collect();
    assert_eq!(offset.validity_bitmap().into_iter(), expected);
}

#[test]
fn checked_add_boundary() {
    // The largest representable value is itself a valid offset; one past it
    // is refused.
    assert_eq!(i32::MAX.checked_add_len(0), Some(i32::MAX));
    assert_eq!(0i32.checked_add_len(i32::MAX as usize), Some(i32::MAX));
    assert_eq!(i32::MAX.checked_add_len(1), None);
    assert_eq!(1i32.checked_add_len(i32::MAX as usize), None);
    assert_eq!(i64::MAX.checked_add_len(0), Some(i64::MAX));
    assert_eq!(i64::MAX.checked_add_len(1), None);
    assert_eq!(<i32 as OffsetElement>::zero(), 0);
    assert_eq!(<i64 as OffsetElement>::zero(), 0);
}

#[test]
fn overflow_surfaces_error() {
    // Zero-sized elements let an item exceed the 32-bit offset range without
    // exceeding memory.
    let big = vec![(); i32::MAX as usize];
    let one = vec![()];
    let r = Offset::<false, (), i32>::from_iter(vec![big, one]);
    assert_eq!(r.err(), Some(OffsetOverflowError));
}

#[test]
fn exact_max_total_is_valid() {
    let big = vec![(); i32::MAX as usize];
    let offset = Offset::<false, (), i32>::from_iter(vec![big]).unwrap();
    assert_eq!(offset.len(), 1);
    assert_eq!(offset.offset_buffer(), &vec![0, i32::MAX]);
}

#[test]
fn nullable_overflow_surfaces_error() {
    let big = vec![(); i32::MAX as usize];
    let one = vec![()];
    let r = Offset::<true, (), i32>::from_iter(vec![Some(big), None, Some(one)]);
    assert_eq!(r.err(), Some(OffsetOverflowError));
}
