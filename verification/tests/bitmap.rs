use columnar::bitmap::Bitmap;
use std::mem;

#[test]
fn capacity() {
    let vec = vec![true; u8::BITS as usize - 1];
    let bitmap = Bitmap::from_iter(&vec);
    let bytes: &[u8] = bitmap.as_ref();
    assert_eq!(bytes.len(), 1);

    let vec = vec![true; u8::BITS as usize];
    let bitmap = Bitmap::from_iter(&vec);
    let bytes: &[u8] = bitmap.as_ref();
    assert_eq!(bytes.len(), 1);

    let vec = vec![true; u8::BITS as usize + 1];
    let bitmap = Bitmap::from_iter(&vec);
    let bytes: &[u8] = bitmap.as_ref();
    assert_eq!(bytes.len(), 2);
}

#[test]
fn as_ref() {
    let bitmap = Bitmap::from_iter(&vec![false, true, true, false, true]);
    let slice: &[u8] = bitmap.as_ref();
    assert_eq!(&slice[0], &22);
}

#[test]
fn as_ref_u8() {
    let bitmap = Bitmap::from_iter(&vec![false, true, false, true, false, true]);
    let bytes: &[u8] = bitmap.as_ref();
    assert_eq!(bytes.len(), mem::size_of::<u8>());
    assert_eq!(bytes[0], 42);
    assert_eq!(bytes[1..], [0; mem::size_of::<u8>() - 1]);
}

#[test]
fn as_ref_usize() {
    let bitmap = Bitmap::from_iter(&vec![false, true, false, true, false, true]);
    let bytes: &[u8] = bitmap.as_ref();
    assert_eq!(bytes.len(), 1);
    assert_eq!(bytes[0], 42);
}

#[test]
fn as_ref_bitslice() {
    let bitmap = Bitmap::from_iter(&vec![
        false, true, false, true, false, true, false, false, false, true,
    ]);
    assert_eq!(bitmap.len(), 10);
    assert!(!bitmap.index(0));
    assert!(bitmap.index(1));
    assert!(!bitmap.index(2));
    assert!(bitmap.index(3));
    assert!(!bitmap.index(4));
    assert!(bitmap.index(5));
    assert!(!bitmap.index(6));
    assert!(!bitmap.index(7));
    assert!(!bitmap.index(8));
    assert!(bitmap.index(9));
}

#[test]
fn deref() {
    let vec = vec![false, true, false, true, false, true];
    let bitmap = Bitmap::from_iter(&vec);
    assert_eq!(bitmap.len(), 6);
    assert!(!bitmap.is_empty());
    assert_eq!(bitmap.count_ones(), 3);
    assert_eq!(bitmap.count_zeros(), 3);
    vec.iter()
        .zip(bitmap.into_iter())
        .for_each(|(a, b)| assert_eq!(*a, b));
    // Iteration is restartable: a second pass sees the same bits.
    assert_eq!(bitmap.into_iter(), bitmap.into_iter());
}

#[test]
fn from_iter() {
    let vec = vec![true, false, true, false];
    let bitmap = Bitmap::from_iter(&vec);
    assert_eq!(bitmap.len(), vec.len());
    assert_eq!(vec, bitmap.into_iter());

    // A source of 1234 set bits whose size hint predicts no lower bound.
    let x = vec![true; 1234];
    let bitmap = Bitmap::from_iter_with_hint(&x, 0);
    assert_eq!(bitmap.len(), 1234);
}

#[test]
fn from_iter_ref() {
    let array = [true, false, true, false];
    let bitmap = Bitmap::from_iter(&array.to_vec());
    assert_eq!(bitmap.len(), array.len());
    assert_eq!(array.to_vec(), bitmap.into_iter());
}

#[test]
fn into_iter() {
    let vec = vec![true, false, true, false];
    let bitmap = Bitmap::from_iter(&vec);
    assert_eq!(bitmap.into_iter(), vec);
}

#[test]
fn empty() {
    let bitmap = Bitmap::from_iter(&vec![]);
    assert_eq!(bitmap.len(), 0);
    assert!(bitmap.is_empty());
    let bytes: &[u8] = bitmap.as_ref();
    assert_eq!(bytes.len(), 0);
    assert_eq!(bitmap.into_iter(), Vec::<bool>::new());
}

#[test]
fn last_index_reads() {
    let vec = vec![false, false, false, false, false, false, false, false, true];
    let bitmap = Bitmap::from_iter(&vec);
    assert_eq!(bitmap.len(), 9);
    assert!(bitmap.is_valid(bitmap.len() - 1));
    assert!(!bitmap.is_null(bitmap.len() - 1));
    assert!(!bitmap.is_valid(0));
    assert!(bitmap.is_null(0));
}

#[test]
fn round_trip_lengths() {
    for len in [0usize, 1, 7, 8, 9, 17, 1234] {
        let vec: Vec<bool> = (0..len).map(|i| i % 3 == 0).collect();
        let bitmap = Bitmap::from_iter(&vec);
        assert_eq!(bitmap.len(), len);
        assert_eq!(bitmap.into_iter(), vec);
    }
}

#[test]
fn growth_hints() {
    let vec: Vec<bool> = (0..100).map(|i| i % 7 == 0).collect();
    // Hints that under-predict, exactly predict, and over-predict the count
    // all yield the same, exactly sized bitmap.
    for hint in [0usize, 3, 99, 100, 1000] {
        let bitmap = Bitmap::from_iter_with_hint(&vec, hint);
        assert_eq!(bitmap.len(), 100);
        let bytes: &[u8] = bitmap.as_ref();
        assert_eq!(bytes.len(), 13);
        assert_eq!(bitmap.into_iter(), vec);
    }
}

#[test]
fn counts() {
    let bitmap = Bitmap::from_iter(&vec![true, false, true]);
    assert_eq!(bitmap.null_count(), 0);
    assert_eq!(bitmap.valid_count(), 3);
    assert_eq!(bitmap.count_ones(), 2);
    assert_eq!(bitmap.count_zeros(), 1);
}

#[test]
fn clone_keeps_bits() {
    let vec = vec![true, true, false, true, false, false, true, true, true];
    let bitmap = Bitmap::from_iter(&vec);
    let copy = bitmap.clone();
    assert_eq!(copy.len(), bitmap.len());
    assert_eq!(copy.into_iter(), vec);
}

#[test]
fn equality_is_over_bits() {
    let vec: Vec<bool> = (0..19).map(|i| i % 4 == 1).collect();
    // The same bits reached through different allocation seeds compare equal.
    let a = Bitmap::from_iter_with_hint(&vec, 0);
    let b = Bitmap::from_iter_with_hint(&vec, 1000);
    assert_eq!(a, b);
    let mut other = vec.clone();
    other[18] = !other[18];
    let c = Bitmap::from_iter(&other);
    assert_ne!(a, c);
    assert_ne!(a, Bitmap::default());
}

#[test]
fn default_is_empty() {
    let bitmap = Bitmap::default();
    assert_eq!(bitmap.len(), 0);
    assert!(bitmap.is_empty());
}
