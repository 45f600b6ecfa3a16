use pagedb::bitmap::BitMap;

#[test]
fn test_bitmap() {
    let mut bm = BitMap::<128>::new();

    bm.set(0, true);
    bm.set(1, true);
    bm.set(8, true);
    bm.set(177, true);
    bm.set(200, true);
    bm.set(512, true);

    assert!(bm.check(0));
    assert!(bm.check(1));
    assert!(bm.check(8));
    assert!(bm.check(177));
    assert!(bm.check(200));
    assert!(bm.check(512));
}

#[test]
fn test_occupied() {
    let mut bm = BitMap::<1>::new();
    assert!(bm.is_empty());

    bm.set(0, true);
    assert!(!bm.is_empty());

    bm.set(1, true);
    bm.set(2, true);
    bm.set(3, true);
    bm.set(4, true);
    bm.set(5, true);
    bm.set(6, true);
    bm.set(7, true);

    assert!(bm.is_full());
}

#[test]
fn bits_that_were_not_set_are_clear() {
    let mut bm = BitMap::<4>::new();
    bm.set(9, true);
    for i in 0..32 {
        assert_eq!(bm.check(i), i == 9);
    }
    assert_eq!(bm.as_slice(), &[0, 2, 0, 0]);
}

#[test]
fn clearing_a_bit_keeps_the_count() {
    let mut bm = BitMap::<1>::new();
    for i in 0..8 {
        bm.set(i, true);
    }
    assert!(bm.is_full());
    bm.set(3, false);
    assert!(!bm.is_full());
    assert!(!bm.check(3));
    // clearing again, and setting twice, count once
    bm.set(3, false);
    bm.set(3, true);
    bm.set(3, true);
    assert!(bm.is_full());
    for i in 0..8 {
        bm.set(i, false);
    }
    assert!(bm.is_empty());
    assert_eq!(bm.as_slice(), &[0]);
}

#[test]
fn from_bytes_counts_the_set_bits() {
    let bm = BitMap::<2>::from_bytes(&[0xff, 0xff]);
    assert!(bm.is_full());
    assert!(bm.check(15));
    let bm = BitMap::<2>::from_bytes(&[0, 0]);
    assert!(bm.is_empty());
    let mut bm = BitMap::<2>::from_bytes(&[0x01, 0x80]);
    assert!(bm.check(0) && bm.check(15) && !bm.check(1));
    bm.set(0, false);
    bm.set(15, false);
    assert!(bm.is_empty());
}

#[test]
fn writing_through_the_slice_changes_the_bits() {
    let mut bm = BitMap::<2>::new();
    bm.as_mut_slice()[1] = 0b100;
    assert!(bm.check(10));
    assert_eq!(bm.as_slice(), &[0, 4]);
}
