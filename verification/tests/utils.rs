use std::ops::Bound;
use pathmap::ring::{AlgebraicResult, DistributiveLattice, Lattice};
use pathmap::utils::{empty_mask, BitMask, ByteMask, ByteMaskIter, IntoByteMaskIter};

#[test]
fn bit_utils_test() {
    let mut mask = ByteMask::empty();
    assert_eq!(mask.count_bits(), 0);
    assert_eq!(mask.is_empty_mask(), true);

    mask.set_bit(b'C');
    mask.set_bit(b'a');
    mask.set_bit(b't');
    assert_eq!(mask.is_empty_mask(), false);
    assert_eq!(mask.count_bits(), 3);

    mask.set_bit(b'C');
    mask.set_bit(b'a');
    mask.set_bit(b'n');
    assert_eq!(mask.count_bits(), 4);

    mask.clear_bit(b't');
    assert_eq!(mask.test_bit(b'n'), true);
    assert_eq!(mask.test_bit(b't'), false);
    mask.clear_bit(b't');
    assert_eq!(mask.count_bits(), 3);
    assert_eq!(mask.test_bit(b't'), false);
}

#[test]
fn word_array_bitmask_supports_non_byte_mask_widths() {
    let mut mask = [0u64; 2];
    mask.set_bit(65);
    mask.clear_bit(1);

    assert_eq!(mask.count_bits(), 1);
    assert_eq!(mask.test_bit(65), true);
    assert_eq!(mask.test_bit(1), false);

    let other = [1u64, 0];
    assert_eq!(mask.or(&other), [1, 2]);
    assert_eq!(mask.and(&other), [0, 0]);
    assert_eq!(mask.xor(&other), [1, 2]);
    assert_eq!(mask.andn(&[0, 2]), [0, 0]);
    assert_eq!(mask.not(), [!0, !2]);

    assert_eq!(mask.pjoin(&other), AlgebraicResult::Element([1, 2]));
    assert_eq!(mask.pmeet(&other), AlgebraicResult::Empty);
    assert_eq!(mask.psubtract(&[0, 2]), AlgebraicResult::Empty);
}

#[test]
fn next_bit_test() {
    fn do_test(test_mask: ByteMask) {
        let set_bits: Vec<u8> = (0..=255u8)
            .into_iter()
            .filter(|i| test_mask.test_bit(*i))
            .collect();

        let mut i = 0;
        let mut cnt = test_mask.test_bit(0) as usize;
        while let Some(next_bit) = test_mask.next_bit(i) {
            assert!(test_mask.test_bit(next_bit));
            i = next_bit;
            cnt += 1;
        }
        assert_eq!(cnt, set_bits.len());

        let mut i = 255;
        let mut cnt = test_mask.test_bit(255) as usize;
        while let Some(prev_bit) = test_mask.prev_bit(i) {
            assert!(test_mask.test_bit(prev_bit));
            i = prev_bit;
            cnt += 1;
        }
        assert_eq!(cnt, set_bits.len());
    }
    do_test(ByteMask::from([
        0b1010010010010010010010000000000000000000000000000000000000010101u64,
        0b0000000000000000000000000000000000000000100000000000000000000000u64,
        0b0000000000000000000000000000000000000000000000000000000000000000u64,
        0b1001000000000000000000000000000000000000000000000000000000000001u64,
    ]));
    do_test(ByteMask::from([
        0b0000000000000000000000000000000000000000000000000000000000000000u64,
        0b0000000000000000000000000000000000000000100000000000000000000000u64,
        0b0000000000000000000000000000000000000000000000000000000000000000u64,
        0b1001000000000000000000000000000000000000000000000000000000000001u64,
    ]));
    do_test(ByteMask::from(ByteMask::full().into_inner()));
}

#[test]
fn next_bit_test2() {
    let mut test_mask = ByteMask::empty();
    test_mask.set_bit(39);
    test_mask.set_bit(97);
    test_mask.set_bit(117);

    assert_eq!(Some(39), test_mask.next_bit(0));
    assert_eq!(Some(97), test_mask.next_bit(39));
    assert_eq!(Some(117), test_mask.next_bit(97));
    assert_eq!(None, test_mask.next_bit(117));
}

#[test]
fn indexed_bit_matches_forward_and_backward_mask_order() {
    fn do_test(test_mask: ByteMask) {
        let forward: Vec<u8> = test_mask.bytes();

        for (idx, byte) in forward.iter().copied().enumerate() {
            assert_eq!(Some(byte), test_mask.indexed_bit::<true>(idx));
        }
        assert_eq!(None, test_mask.indexed_bit::<true>(forward.len()));

        for (idx, byte) in forward.iter().rev().copied().enumerate() {
            assert_eq!(Some(byte), test_mask.indexed_bit::<false>(idx));
        }
        assert_eq!(None, test_mask.indexed_bit::<false>(forward.len()));
    }

    do_test(ByteMask::empty());
    do_test(ByteMask::from_iter([0, 1, 7, 8, 31, 32, 63]));
    do_test(ByteMask::from_iter([64, 65, 95, 127, 128, 191, 192, 254, 255]));
    do_test(ByteMask::from_range(10..70));
    do_test(ByteMask::full());
}

#[test]
fn from_range_test() {
    assert_eq!(
        ByteMask::from_range(10..70),
        ByteMask::from([
            0b1111111111111111111111111111111111111111111111111111110000000000u64,
            0b0000000000000000000000000000000000000000000000000000000000111111u64,
            0b0000000000000000000000000000000000000000000000000000000000000000u64,
            0b0000000000000000000000000000000000000000000000000000000000000000u64,
        ])
    );
    assert_eq!(ByteMask::from_range(..), ByteMask::full());
    assert_eq!(
        ByteMask::from_range(..=127),
        ByteMask::from([
            0b1111111111111111111111111111111111111111111111111111111111111111u64,
            0b1111111111111111111111111111111111111111111111111111111111111111u64,
            0b0000000000000000000000000000000000000000000000000000000000000000u64,
            0b0000000000000000000000000000000000000000000000000000000000000000u64,
        ])
    );
    assert_eq!(
        ByteMask::from_range(10..),
        ByteMask::from([
            0b1111111111111111111111111111111111111111111111111111110000000000u64,
            0b1111111111111111111111111111111111111111111111111111111111111111u64,
            0b1111111111111111111111111111111111111111111111111111111111111111u64,
            0b1111111111111111111111111111111111111111111111111111111111111111u64,
        ])
    );
    assert_eq!(ByteMask::from_range(0..0), ByteMask::empty());
    assert_eq!(ByteMask::from_range(0..=0), ByteMask::from(0));
    assert_eq!(ByteMask::from_range(255..255), ByteMask::empty());
    assert_eq!(ByteMask::from_range(255..=255), ByteMask::from(255));
}

#[test]
fn byte_mask_iter_visits_set_bytes_in_order() {
    let words = ByteMask::from_iter([3, 64, 200]).into_inner();
    let mut it = words.byte_mask_iter();
    assert_eq!(it.next(), Some(3));
    assert_eq!(it.next(), Some(64));
    assert_eq!(it.next(), Some(200));
    assert_eq!(it.next(), None);

    let mut it = (&words).byte_mask_iter();
    assert_eq!(it.next(), Some(3));

    let mut it = ByteMaskIter::new(empty_mask());
    assert_eq!(it.next(), None);
}

#[test]
fn byte_mask_subset_and_index_of() {
    let mask = ByteMask::from_iter([1, 5, 9, 200]);
    assert_eq!(mask.index_of(1), 0);
    assert_eq!(mask.index_of(9), 2);
    assert_eq!(mask.index_of(200), 3);
    assert_eq!(mask.prev_bit(9), Some(5));
    assert_eq!(mask.prev_bit(1), None);
    assert_eq!(ByteMask::singleton(7).count_bits(), 1);
    assert_eq!(ByteMask::subset(3), ByteMask::from_iter([0, 1, 2, 3]));
    assert_eq!(ByteMask::subset(5), ByteMask::from_iter([0, 1, 4, 5]));
}

#[test]
fn from_range_takes_a_pair_of_bounds() {
    assert_eq!(ByteMask::from_range((Bound::Included(10u8), Bound::Excluded(70u8))), ByteMask::from_range(10..70));
    assert_eq!(ByteMask::from_range((Bound::Excluded(9u8), Bound::Included(69u8))), ByteMask::from_range(10..70));
    assert_eq!(ByteMask::from_range((Bound::<u8>::Unbounded, Bound::<u8>::Unbounded)), ByteMask::full());
    assert_eq!(ByteMask::from_range((Bound::Excluded(255u8), Bound::<u8>::Unbounded)), ByteMask::empty());
    assert_eq!(ByteMask::from_range((Bound::Excluded(5u8), Bound::Excluded(6u8))), ByteMask::empty());
}
