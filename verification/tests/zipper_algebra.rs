use pathmap::pathmap::PathMap;
use pathmap::zipper::{ReadZipper, WriteZipper};
use pathmap::zipper_moving::{ZipperIteration, ZipperMoving};
use pathmap::zipper_algebra::{
    zipper_join3, zipper_meet3, zipper_merge_dnf, zipper_n_join, zipper_n_meet, zipper_n_subtract,
    zipper_subtract3, ZipperAlgebraExt,
};

type Paths = &'static [(&'static [u8], u64)];
type BinaryTest = (Paths, Paths);
type TernaryTest = (Paths, Paths, Paths);
type NaryTest = [Paths; N];
const N: usize = 6;

fn mk_binary_test(test: &BinaryTest) -> (PathMap<u64>, PathMap<u64>) {
    (PathMap::from_iter(test.0), PathMap::from_iter(test.1))
}

fn mk_ternary_test(test: &TernaryTest) -> (PathMap<u64>, PathMap<u64>, PathMap<u64>) {
    (
        PathMap::from_iter(test.0),
        PathMap::from_iter(test.1),
        PathMap::from_iter(test.2),
    )
}

fn mk_nary_test(test: &NaryTest) -> [PathMap<u64>; N] {
    test.map(PathMap::from_iter)
}

fn check2<
    'x,
    T: IntoIterator<Item = &'x (&'x [u8], u64)>,
    F: FnOnce(&mut ReadZipper<u64>, &mut ReadZipper<u64>, &mut WriteZipper<u64>),
>(
    test: &BinaryTest,
    expected: T,
    op: F,
) {
    let (left, right) = mk_binary_test(test);

    let mut result = PathMap::new();

    let mut lhs = left.read_zipper();
    let mut rhs = right.read_zipper();
    let mut out = result.write_zipper();

    op(&mut lhs, &mut rhs, &mut out);

    assert_trie(expected.into_iter().copied(), result);
}

fn check3<
    'x,
    T: IntoIterator<Item = &'x (&'x [u8], u64)>,
    F: FnOnce(&mut ReadZipper<u64>, &mut ReadZipper<u64>, &mut ReadZipper<u64>, &mut WriteZipper<u64>),
>(
    test: &TernaryTest,
    expected: T,
    op: F,
) {
    let (left, middle, right) = mk_ternary_test(test);

    let mut result = PathMap::new();

    let mut lhs = left.read_zipper();
    let mut mid = middle.read_zipper();
    let mut rhs = right.read_zipper();
    let mut out = result.write_zipper();

    op(&mut lhs, &mut mid, &mut rhs, &mut out);

    assert_trie(expected.into_iter().copied(), result);
}

fn checkn<
    'x,
    T: IntoIterator<Item = &'x (&'x [u8], u64)>,
    F: for<'a> FnOnce([ReadZipper<'a, u64>; N], WriteZipper<'a, u64>),
>(
    test: &NaryTest,
    expected: T,
    op: F,
) {
    let path_maps = mk_nary_test(test);

    let mut result = PathMap::new();

    op(
        path_maps.each_ref().map(PathMap::read_zipper),
        result.write_zipper(),
    );

    assert_trie(expected.into_iter().copied(), result);
}

fn assert_trie<'p, T: IntoIterator<Item = (&'p [u8], u64)>>(expected: T, result: PathMap<u64>) {
    let mut result_copy = result.clone_map();

    for (expected_path, expected_val) in expected {
        assert!(
            result.path_exists_at(expected_path),
            "Path {:?} does NOT exist in the result",
            expected_path
        );
        let actual_val = result.get_val_at(expected_path).copied();
        assert_eq!(actual_val, Some(expected_val), "Value at {:?}", expected_path);

        result_copy.remove_val_at(expected_path, true);
    }

    assert!(
        result_copy.is_empty(),
        "Paths unaccounted for are present in the result"
    );
}

const DISJOINT_PATHS: BinaryTest = (
    &[
        (&[0x00], 0),
        (&[0x00, 0x00], 1),
        (&[0x00, 0x00, 0x00], 2),
        (&[0x00, 0x00, 0x00, 0x00], 3),
    ],
    &[
        (&[0xFF], 0),
        (&[0xFF, 0x00], 1),
        (&[0xFF, 0x00, 0x00], 2),
        (&[0xFF, 0x00, 0x00, 0x00], 3),
    ],
);

const DISJOINT_PATHS_3: TernaryTest = (
    &[
        (&[0x00], 0),
        (&[0x00, 0x00], 1),
        (&[0x00, 0x00, 0x00], 2),
        (&[0x00, 0x00, 0x00, 0x00], 3),
    ],
    &[
        (&[0xF0], 0),
        (&[0xF0, 0x00], 1),
        (&[0xF0, 0x00, 0x00], 2),
        (&[0xF0, 0x00, 0x00, 0x00], 3),
    ],
    &[
        (&[0xFF], 0),
        (&[0xFF, 0x00], 1),
        (&[0xFF, 0x00, 0x00], 2),
        (&[0xFF, 0x00, 0x00, 0x00], 3),
    ],
);

const DISJOINT_PATHS_N: NaryTest = [
    &[
        (&[0x00], 0),
        (&[0x00, 0x00], 1),
        (&[0x00, 0x00, 0x00], 2),
        (&[0x00, 0x00, 0x00, 0x00], 3),
    ],
    &[
        (&[0xC0], 0),
        (&[0xC0, 0x00], 1),
        (&[0xC0, 0x00, 0x00], 2),
        (&[0xC0, 0x00, 0x00, 0x00], 3),
    ],
    &[
        (&[0xD0], 0),
        (&[0xD0, 0x00], 1),
        (&[0xD0, 0x00, 0x00], 2),
        (&[0xD0, 0x00, 0x00, 0x00], 3),
    ],
    &[
        (&[0xE0], 0),
        (&[0xE0, 0x00], 1),
        (&[0xE0, 0x00, 0x00], 2),
        (&[0xE0, 0x00, 0x00, 0x00], 3),
    ],
    &[
        (&[0xF0], 0),
        (&[0xF0, 0x00], 1),
        (&[0xF0, 0x00, 0x00], 2),
        (&[0xF0, 0x00, 0x00, 0x00], 3),
    ],
    &[
        (&[0xFF], 0),
        (&[0xFF, 0x00], 1),
        (&[0xFF, 0x00, 0x00], 2),
        (&[0xFF, 0x00, 0x00, 0x00], 3),
    ],
];

const PATHS_WITH_SHARED_PREFIX: BinaryTest = (
    &[(b"aaaaa0", 0), (b"bbbbbbbb0", 1)],
    &[(b"aaaaa1", 0), (b"bbbbb1", 1), (b"bbbbbbbb1", 2)],
);

const PATHS_WITH_SHARED_PREFIX_3: TernaryTest = (
    &[(b"aaaaa0", 0), (b"bbbbbbbb0", 1)],
    &[(b"aaaaa1", 0), (b"bbbbb1", 1), (b"bbbbbbbb1", 2)],
    &[(b"aaaaa2", 0), (b"bbbbb2", 1), (b"bbbbbbbb2", 2)],
);

const PATHS_WITH_SHARED_PREFIX_N: NaryTest = [
    &[(b"aaaaa0", 0), (b"bbbbbbbb0", 1)],
    &[(b"aaaaa1", 0), (b"bbbbb1", 1), (b"bbbbbbbb1", 2)],
    &[(b"aaaaa2", 0), (b"bbbbb2", 1), (b"bbbbbbbb2", 2)],
    &[(b"aaaaa3", 0), (b"bbbbb3", 1), (b"bbbbbbbb3", 2)],
    &[(b"aaaaa4", 0), (b"bbbbb4", 1), (b"bbbbbbbb4", 2)],
    &[(b"aaaaa5", 0), (b"bbbbb5", 1), (b"bbbbbbbb5", 2)],
];

const INTERLEAVING_PATHS: BinaryTest = (
    &[(&[0], 0), (&[2], 1), (&[4], 2), (&[6], 3)],
    &[(&[1], 0), (&[3], 1), (&[5], 2), (&[7], 3)],
);

const INTERLEAVING_PATHS_3: TernaryTest = (
    &[(&[0], 0), (&[3], 1), (&[6], 2), (&[9], 3)],
    &[(&[1], 0), (&[4], 1), (&[7], 2), (&[10], 3)],
    &[(&[2], 0), (&[5], 1), (&[8], 2), (&[11], 3)],
);

const INTERLEAVING_PATHS_N: NaryTest = [
    &[(&[0], 0), (&[6], 1), (&[12], 2), (&[18], 3)],
    &[(&[1], 0), (&[7], 1), (&[13], 2), (&[19], 3)],
    &[(&[2], 0), (&[8], 1), (&[14], 2), (&[20], 3)],
    &[(&[3], 0), (&[9], 1), (&[15], 2), (&[21], 3)],
    &[(&[4], 0), (&[10], 1), (&[16], 2), (&[22], 3)],
    &[(&[5], 0), (&[11], 1), (&[17], 2), (&[23], 3)],
];

const ONE_SIDED_PATHS: BinaryTest = (
    &[
        (&[0x00], 0),
        (&[0x00, 0x01], 1),
        (&[0x00, 0x01, 0x02], 2),
        (&[0x00, 0x01, 0x02, 0x03], 3),
        (&[0x01], 4),
        (&[0x01, 0x02], 5),
        (&[0x01, 0x02, 0x03], 6),
        (&[0x01, 0x02, 0x03, 0x04], 7),
        (&[0x01, 0x02, 0x03, 0x04, 0x05], 8),
        (&[0x01, 0x02, 0x03, 0x04, 0x05, 0x06], 9),
    ],
    &[
        (&[0x00], 0),
        (&[0x00, 0x01, 0x02, 0x03], 1),
        (&[0x01, 0x02, 0x03, 0x04, 0x05], 2),
    ],
);

const ONE_SIDED_PATHS_3: TernaryTest = (
    &[
        (&[0x00], 0),
        (&[0x00, 0x01], 1),
        (&[0x00, 0x01, 0x02], 2),
        (&[0x00, 0x01, 0x02, 0x03], 3),
        (&[0x01], 4),
        (&[0x01, 0x02], 5),
        (&[0x01, 0x02, 0x03], 6),
        (&[0x01, 0x02, 0x03, 0x04], 7),
        (&[0x01, 0x02, 0x03, 0x04, 0x05], 8),
        (&[0x01, 0x02, 0x03, 0x04, 0x05, 0x06], 9),
    ],
    &[
        (&[0x00], 0),
        (&[0x00, 0x01, 0x02, 0x03], 1),
        (&[0x01, 0x02, 0x03, 0x04, 0x05], 2),
    ],
    &[(&[0x00], 0), (&[0x00, 0x01, 0x02], 1)],
);

const ONE_SIDED_PATHS_N: NaryTest = [
    &[
        (&[0x00], 0),
        (&[0x00, 0x01], 1),
        (&[0x00, 0x01, 0x02], 2),
        (&[0x00, 0x01, 0x02, 0x03], 3),
        (&[0x01], 4),
        (&[0x01, 0x02], 5),
        (&[0x01, 0x02, 0x03], 6),
        (&[0x01, 0x02, 0x03, 0x04], 7),
        (&[0x01, 0x02, 0x03, 0x04, 0x05], 8),
        (&[0x01, 0x02, 0x03, 0x04, 0x05, 0x06], 9),
    ],
    &[
        (&[0x00], 0),
        (&[0x00, 0x01, 0x02, 0x03], 1),
        (&[0x01, 0x02, 0x03, 0x04, 0x05], 2),
    ],
    &[(&[0x00], 0), (&[0x00, 0x01, 0x02], 1)],
    &[(&[0x01], 4)],
    &[(&[0x01], 4), (&[0x01, 0x02], 5)],
    &[(&[0x01], 4), (&[0x01, 0x02, 0x03], 5)],
];

const ALMOST_IDENTICAL_PATHS: BinaryTest = (
    &[
        (b"abcdefg", 0),
        (b"hijklmnop", 1),
        (b"qrstuwvxyz", 2),
        (b"0", 3),
        (b"1", 4),
        (b"2", 5),
        (b"3", 6),
        (b"4", 7),
        (b"5", 8),
        (b"6789", 9),
    ],
    &[
        (b"abcdefg", 0),
        (b"qrstuwvxyz", 2),
        (b"0", 3),
        (b"1", 4),
        (b"4", 7),
        (b"5", 8),
        (b"6789", 9),
    ],
);

const ALMOST_IDENTICAL_PATHS_3: TernaryTest = (
    &[
        (b"abcdefg", 0),
        (b"hijklmnop", 1),
        (b"qrstuwvxyz", 2),
        (b"0", 3),
        (b"1", 4),
        (b"2", 5),
        (b"3", 6),
        (b"4", 7),
        (b"5", 8),
        (b"6789", 9),
    ],
    &[
        (b"abcdefg", 0),
        (b"qrstuwvxyz", 2),
        (b"0", 3),
        (b"1", 4),
        (b"4", 7),
        (b"5", 8),
        (b"6789", 9),
    ],
    &[
        (b"abcdefg", 0),
        (b"hijklmnop", 1),
        (b"1", 4),
        (b"2", 5),
        (b"3", 6),
        (b"4", 7),
        (b"5", 8),
    ],
);

const ALMOST_IDENTICAL_PATHS_N: NaryTest = [
    &[
        (b"abcdefg", 0),
        (b"hijklmnop", 1),
        (b"qrstuwvxyz", 2),
        (b"0", 3),
        (b"1", 4),
        (b"2", 5),
        (b"3", 6),
        (b"4", 7),
        (b"5", 8),
        (b"6789", 9),
    ],
    &[
        (b"abcdefg", 0),
        (b"qrstuwvxyz", 2),
        (b"0", 3),
        (b"1", 4),
        (b"4", 7),
        (b"5", 8),
        (b"6789", 9),
    ],
    &[
        (b"abcdefg", 0),
        (b"hijklmnop", 1),
        (b"1", 4),
        (b"2", 5),
        (b"3", 6),
        (b"4", 7),
        (b"5", 8),
    ],
    &[
        (b"hijklmnop", 1),
        (b"1", 4),
        (b"2", 5),
        (b"3", 6),
        (b"4", 7),
        (b"5", 8),
    ],
    &[
        (b"hijklmnop", 1),
        (b"1", 4),
        (b"2", 5),
        (b"3", 6),
        (b"4", 7),
        (b"5", 8),
    ],
    &[
        (b"hijklmnop", 1),
        (b"1", 4),
        (b"2", 5),
        (b"3", 6),
        (b"4", 7),
        (b"5", 8),
    ],
];

const LHS_EMPTY: BinaryTest = (&[], &[(&[1], 0), (&[2], 1)]);
const LHS_EMPTY_3: TernaryTest = (&[], &[(&[1], 0), (&[2], 1)], &[(&[3], 0), (&[4], 1)]);
const LHS_EMPTY_N: NaryTest = [
    &[],
    &[(&[1], 0), (&[2], 1)],
    &[(&[3], 0), (&[4], 1)],
    &[(&[5], 0)],
    &[(&[6], 0)],
    &[(&[7], 0), (&[8], 1)],
];

const RHS_EMPTY: BinaryTest = (&[(&[1], 0), (&[2], 1)], &[]);
const RHS_EMPTY_3: TernaryTest = (&[(&[1], 0), (&[2], 1)], &[(&[3], 0), (&[4], 1)], &[]);
const RHS_EMPTY_N: NaryTest = [
    &[(&[1], 0), (&[2], 1)],
    &[(&[3], 0), (&[4], 1)],
    &[(&[5], 0)],
    &[(&[6], 0)],
    &[(&[7], 0), (&[8], 1)],
    &[],
];

const MID_EMPTY: TernaryTest = (&[(&[1], 0), (&[2], 1)], &[], &[(&[3], 0), (&[4], 1)]);
const MID_EMPTY_N: NaryTest = [
    &[(&[1], 0), (&[2], 1)],
    &[(&[3], 0), (&[4], 1)],
    &[],
    &[(&[5], 0)],
    &[(&[6], 0)],
    &[(&[7], 0), (&[8], 1)],
];

const PATHS_WITH_SAME_PREFIX_DIFFERENT_CHILDREN: BinaryTest = (
    &[
        (&[1, 2, 3], 0),
        (&[1, 2, 3, 4], 1),
        (&[1, 2, 3, 10, 11, 12], 2),
    ],
    &[
        (&[1, 2, 3], 10),
        (&[1, 2, 3, 5], 11),
        (&[1, 2, 3, 10, 11, 0], 12),
    ],
);

const PATHS_WITH_SAME_PREFIX_DIFFERENT_CHILDREN_3: TernaryTest = (
    &[
        (&[1, 2, 3], 0),
        (&[1, 2, 3, 4], 1),
        (&[1, 2, 3, 10, 11, 12], 2),
    ],
    &[
        (&[1, 2, 3], 10),
        (&[1, 2, 3, 5], 11),
        (&[1, 2, 3, 10, 11, 0], 12),
    ],
    &[
        (&[1, 2, 3], 20),
        (&[1, 2, 3, 6], 21),
        (&[1, 2, 3, 10, 11, 1], 22),
    ],
);

const PATHS_WITH_SAME_PREFIX_DIFFERENT_CHILDREN_N: NaryTest = [
    &[
        (&[1, 2, 3], 0),
        (&[1, 2, 3, 4], 1),
        (&[1, 2, 3, 10, 11, 12], 2),
    ],
    &[
        (&[1, 2, 3], 10),
        (&[1, 2, 3, 5], 11),
        (&[1, 2, 3, 10, 11, 0], 12),
    ],
    &[
        (&[1, 2, 3], 20),
        (&[1, 2, 3, 6], 21),
        (&[1, 2, 3, 10, 11, 1], 22),
    ],
    &[
        (&[1, 2, 3], 30),
        (&[1, 2, 3, 7], 31),
        (&[1, 2, 3, 10, 11, 2], 32),
    ],
    &[
        (&[1, 2, 3], 40),
        (&[1, 2, 3, 8], 41),
        (&[1, 2, 3, 10, 11, 3], 42),
    ],
    &[
        (&[1, 2, 3], 50),
        (&[1, 2, 3, 9], 51),
        (&[1, 2, 3, 10, 11, 4], 52),
    ],
];

const ZIGZAG_PATHS: BinaryTest = (
    &[
        (&[1, 1], 0),
        (&[2], 1),
        (&[2, 1], 2),
        (&[3], 3),
        (&[3, 2, 1], 4),
        (&[4], 4),
        (&[4, 3, 2, 1], 5),
    ],
    &[
        (&[1], 0),
        (&[1, 2], 1),
        (&[2, 1], 2),
        (&[3], 3),
        (&[3, 4], 4),
        (&[4, 3], 5),
    ],
);

const ZIGZAG_PATHS_3: TernaryTest = (
    &[
        (&[1, 1], 0),
        (&[2], 1),
        (&[2, 1], 2),
        (&[3], 3),
        (&[3, 2, 1], 4),
        (&[4], 4),
        (&[4, 3, 2, 1], 5),
    ],
    &[
        (&[1], 0),
        (&[1, 2], 1),
        (&[2, 1], 2),
        (&[3], 3),
        (&[3, 4], 4),
        (&[4, 3], 5),
    ],
    &[
        (&[1], 0),
        (&[2], 1),
        (&[2, 1], 2),
        (&[3, 2, 1, 0], 3),
        (&[4, 3, 2, 1, 0], 4),
        (&[4, 3, 2, 1], 5),
    ],
);

const PATHS_WITH_ROOT_VALS_AND_CHILDREN: BinaryTest =
    (&[(&[], 1), (&[1], 10)], &[(&[], 2), (&[1], 20)]);

const PATHS_WITH_ROOT_VALS_AND_CHILDREN_3: TernaryTest = (
    &[(&[], 1), (&[1], 10)],
    &[(&[], 2), (&[1], 20)],
    &[(&[], 3), (&[1], 30)],
);

const PATHS_WITH_ROOT_VALS_AND_CHILDREN_N: NaryTest = [
    &[(&[], 1), (&[1], 10), (&[2], 110)],
    &[(&[], 2), (&[1], 20), (&[2], 120)],
    &[(&[], 3), (&[1], 30), (&[2], 130)],
    &[(&[], 4), (&[1], 40), (&[2], 140)],
    &[(&[], 5), (&[1], 50), (&[2], 150)],
    &[(&[], 6), (&[1], 60), (&[2], 160)],
];

#[test]
fn zipper_algebra_test_disjoint() {
    // join
    {
        check2(
            &DISJOINT_PATHS,
            &[DISJOINT_PATHS.0, DISJOINT_PATHS.1].concat(),
            |lhs, rhs, out| lhs.join(rhs, out),
        );
    }
    // meet
    {
        check2(&DISJOINT_PATHS, [], |lhs, rhs, out| {
            lhs.meet(rhs, out);
        });
    }
    // subtract
    {
        check2(&DISJOINT_PATHS, DISJOINT_PATHS.0, |lhs, rhs, out| {
            lhs.subtract(rhs, out);
        });
    }
}

#[test]
fn zipper_algebra_test_disjoint3() {
    // join
    {
        check3(
            &DISJOINT_PATHS_3,
            &[DISJOINT_PATHS_3.0, DISJOINT_PATHS_3.1, DISJOINT_PATHS_3.2].concat(),
            |lhs, mid, rhs, out| zipper_join3(lhs, mid, rhs, out),
        );
    }
    // meet
    {
        check3(&DISJOINT_PATHS_3, [], |lhs, mid, rhs, out| {
            zipper_meet3(lhs, mid, rhs, out);
        });
    }
    // subtract
    {
        check3(
            &DISJOINT_PATHS_3,
            DISJOINT_PATHS_3.0,
            |lhs, mid, rhs, out| {
                zipper_subtract3(lhs, mid, rhs, out);
            },
        );
    }
}

#[test]
fn zipper_algebra_test_disjoint_n() {
    // join
    {
        checkn(
            &DISJOINT_PATHS_N,
            &[
                DISJOINT_PATHS_N[0],
                DISJOINT_PATHS_N[1],
                DISJOINT_PATHS_N[2],
                DISJOINT_PATHS_N[3],
                DISJOINT_PATHS_N[4],
                DISJOINT_PATHS_N[5],
            ]
            .concat(),
            |mut zs, mut out| zipper_n_join(&mut zs, &mut out),
        );
    }
    // meet
    {
        checkn(
            &DISJOINT_PATHS_N,
            [],
            |mut zs, mut out| zipper_n_meet(&mut zs, &mut out),
        );
    }
    // subtract
    {
        checkn(
            &DISJOINT_PATHS_N,
            DISJOINT_PATHS_N[0],
            |mut zs, mut out| zipper_n_subtract(&mut zs, &mut out),
        );
    }
}

#[test]
fn zipper_algebra_test_deep_shared_prefix_then_split() {
    // join
    {
        check2(
            &PATHS_WITH_SHARED_PREFIX,
            &[PATHS_WITH_SHARED_PREFIX.0, PATHS_WITH_SHARED_PREFIX.1].concat(),
            |lhs, rhs, out| lhs.join(rhs, out),
        );
    }
    // meet
    {
        check2(&PATHS_WITH_SHARED_PREFIX, [], |lhs, rhs, out| {
            lhs.meet(rhs, out);
        });
    }
    // subtract
    {
        check2(
            &PATHS_WITH_SHARED_PREFIX,
            PATHS_WITH_SHARED_PREFIX.0,
            |lhs, rhs, out| lhs.subtract(rhs, out),
        );
    }
}

#[test]
fn zipper_algebra_test_deep_shared_prefix_then_split3() {
    // join
    {
        check3(
            &PATHS_WITH_SHARED_PREFIX_3,
            &[
                PATHS_WITH_SHARED_PREFIX_3.0,
                PATHS_WITH_SHARED_PREFIX_3.1,
                PATHS_WITH_SHARED_PREFIX_3.2,
            ]
            .concat(),
            |lhs, mid, rhs, out| zipper_join3(lhs, mid, rhs, out),
        );
    }
    // meet
    {
        check3(&PATHS_WITH_SHARED_PREFIX_3, [], |lhs, mid, rhs, out| {
            zipper_meet3(lhs, mid, rhs, out);
        });
    }
    // subtract
    {
        check3(
            &PATHS_WITH_SHARED_PREFIX_3,
            PATHS_WITH_SHARED_PREFIX_3.0,
            |lhs, mid, rhs, out| {
                zipper_subtract3(lhs, mid, rhs, out);
            },
        );
    }
}

#[test]
fn zipper_algebra_test_deep_shared_prefix_then_split_n() {
    // join
    {
        checkn(
            &PATHS_WITH_SHARED_PREFIX_N,
            &[
                PATHS_WITH_SHARED_PREFIX_N[0],
                PATHS_WITH_SHARED_PREFIX_N[1],
                PATHS_WITH_SHARED_PREFIX_N[2],
                PATHS_WITH_SHARED_PREFIX_N[3],
                PATHS_WITH_SHARED_PREFIX_N[4],
                PATHS_WITH_SHARED_PREFIX_N[5],
            ]
            .concat(),
            |mut zs, mut out| zipper_n_join(&mut zs, &mut out),
        );
    }
    // meet
    {
        checkn(
            &PATHS_WITH_SHARED_PREFIX_N,
            [],
            |mut zs, mut out| zipper_n_meet(&mut zs, &mut out),
        );
    }
    // subtract
    {
        checkn(
            &PATHS_WITH_SHARED_PREFIX_N,
            PATHS_WITH_SHARED_PREFIX_N[0],
            |mut zs, mut out| zipper_n_subtract(&mut zs, &mut out),
        );
    }
}

#[test]
fn zipper_algebra_test_interleaving_paths() {
    // join
    {
        check2(
            &INTERLEAVING_PATHS,
            &[INTERLEAVING_PATHS.0, INTERLEAVING_PATHS.1].concat(),
            |lhs, rhs, out| lhs.join(rhs, out),
        );
    }
    // meet
    {
        check2(&INTERLEAVING_PATHS, [], |lhs, rhs, out| {
            lhs.meet(rhs, out);
        });
    }
    // subtract
    {
        check2(
            &INTERLEAVING_PATHS,
            INTERLEAVING_PATHS.0,
            |lhs, rhs, out| lhs.subtract(rhs, out),
        );
    }
}

#[test]
fn zipper_algebra_test_interleaving_paths3() {
    // join
    {
        check3(
            &INTERLEAVING_PATHS_3,
            &[
                INTERLEAVING_PATHS_3.0,
                INTERLEAVING_PATHS_3.1,
                INTERLEAVING_PATHS_3.2,
            ]
            .concat(),
            |lhs, mid, rhs, out| zipper_join3(lhs, mid, rhs, out),
        );
    }
    // meet
    {
        check3(&INTERLEAVING_PATHS_3, [], |lhs, mid, rhs, out| {
            zipper_meet3(lhs, mid, rhs, out);
        });
    }
    // subtract
    {
        check3(
            &INTERLEAVING_PATHS_3,
            INTERLEAVING_PATHS_3.0,
            |lhs, mid, rhs, out| {
                zipper_subtract3(lhs, mid, rhs, out);
            },
        );
    }
}

#[test]
fn zipper_algebra_test_interleaving_paths_n() {
    // join
    {
        checkn(
            &INTERLEAVING_PATHS_N,
            &[
                INTERLEAVING_PATHS_N[0],
                INTERLEAVING_PATHS_N[1],
                INTERLEAVING_PATHS_N[2],
                INTERLEAVING_PATHS_N[3],
                INTERLEAVING_PATHS_N[4],
                INTERLEAVING_PATHS_N[5],
            ]
            .concat(),
            |mut zs, mut out| zipper_n_join(&mut zs, &mut out),
        );
    }
    // meet
    {
        checkn(
            &INTERLEAVING_PATHS_N,
            [],
            |mut zs, mut out| zipper_n_meet(&mut zs, &mut out),
        );
    }
    // subtract
    {
        checkn(
            &INTERLEAVING_PATHS_N,
            INTERLEAVING_PATHS_N[0],
            |mut zs, mut out| zipper_n_subtract(&mut zs, &mut out),
        );
    }
}

#[test]
fn zipper_algebra_test_one_side_empty_at_many_levels() {
    // join
    {
        check2(&ONE_SIDED_PATHS, ONE_SIDED_PATHS.0, |lhs, rhs, out| {
            lhs.join(rhs, out)
        });
    }
    // meet
    {
        let expected: Paths = &[
            (&[0x00], 0),
            (&[0x00, 0x01, 0x02, 0x03], 3),
            (&[0x01, 0x02, 0x03, 0x04, 0x05], 8),
        ];
        check2(&ONE_SIDED_PATHS, expected, |lhs, rhs, out| {
            lhs.meet(rhs, out);
        });
    }
    // subtract
    {
        let expected: Paths = &[
            (&[0x00, 0x01], 1),
            (&[0x00, 0x01, 0x02], 2),
            (&[0x00, 0x01, 0x02, 0x03], 3),
            (&[0x01], 4),
            (&[0x01, 0x02], 5),
            (&[0x01, 0x02, 0x03], 6),
            (&[0x01, 0x02, 0x03, 0x04], 7),
            (&[0x01, 0x02, 0x03, 0x04, 0x05], 8),
            (&[0x01, 0x02, 0x03, 0x04, 0x05, 0x06], 9),
        ];
        check2(&ONE_SIDED_PATHS, expected, |lhs, rhs, out| {
            lhs.subtract(rhs, out)
        });
    }
}

#[test]
fn zipper_algebra_test_one_side_empty_at_many_levels3() {
    // join
    {
        check3(
            &ONE_SIDED_PATHS_3,
            ONE_SIDED_PATHS_3.0,
            |lhs, mid, rhs, out| zipper_join3(lhs, mid, rhs, out),
        );
    }
    // meet
    {
        let expected: Paths = &[(&[0x00], 0)];
        check3(&ONE_SIDED_PATHS_3, expected, |lhs, mid, rhs, out| {
            zipper_meet3(lhs, mid, rhs, out);
        });
    }
    // subtract
    {
        let expected: Paths = &[
            (&[0x00, 0x01], 1),
            (&[0x00, 0x01, 0x02], 2),
            (&[0x00, 0x01, 0x02, 0x03], 3),
            (&[0x01], 4),
            (&[0x01, 0x02], 5),
            (&[0x01, 0x02, 0x03], 6),
            (&[0x01, 0x02, 0x03, 0x04], 7),
            (&[0x01, 0x02, 0x03, 0x04, 0x05], 8),
            (&[0x01, 0x02, 0x03, 0x04, 0x05, 0x06], 9),
        ];
        check3(&ONE_SIDED_PATHS_3, expected, |lhs, mid, rhs, out| {
            zipper_subtract3(lhs, mid, rhs, out);
        });
    }
}

#[test]
fn zipper_algebra_test_one_side_empty_at_many_levels_n() {
    // join
    {
        checkn(
            &ONE_SIDED_PATHS_N,
            ONE_SIDED_PATHS_N[0],
            |mut zs, mut out| zipper_n_join(&mut zs, &mut out),
        );
    }
    // meet
    {
        checkn(
            &ONE_SIDED_PATHS_N,
            [],
            |mut zs, mut out| zipper_n_meet(&mut zs, &mut out),
        );
    }
    // subtract
    {
        let expected: Paths = &[
            (&[0x00, 0x01], 1),
            (&[0x00, 0x01, 0x02], 2),
            (&[0x00, 0x01, 0x02, 0x03], 3),
            (&[0x01, 0x02, 0x03], 6),
            (&[0x01, 0x02, 0x03, 0x04], 7),
            (&[0x01, 0x02, 0x03, 0x04, 0x05], 8),
            (&[0x01, 0x02, 0x03, 0x04, 0x05, 0x06], 9),
        ];
        checkn(
            &ONE_SIDED_PATHS_N,
            expected,
            |mut zs, mut out| zipper_n_subtract(&mut zs, &mut out),
        );
    }
}

#[test]
fn zipper_algebra_test_almost_identical_paths() {
    // join
    {
        check2(
            &ALMOST_IDENTICAL_PATHS,
            ALMOST_IDENTICAL_PATHS.0,
            |lhs, rhs, out| lhs.join(rhs, out),
        );
    }
    // meet
    {
        check2(
            &ALMOST_IDENTICAL_PATHS,
            ALMOST_IDENTICAL_PATHS.1,
            |lhs, rhs, out| lhs.meet(rhs, out),
        );
    }
    // subtract
    {
        let expected: Paths = &[(b"hijklmnop", 1), (b"2", 5), (b"3", 6)];
        check2(&ALMOST_IDENTICAL_PATHS, expected, |lhs, rhs, out| {
            lhs.subtract(rhs, out)
        });
    }
}

#[test]
fn zipper_algebra_test_almost_identical_paths3() {
    // join
    {
        check3(
            &ALMOST_IDENTICAL_PATHS_3,
            ALMOST_IDENTICAL_PATHS_3.0,
            |lhs, mid, rhs, out| zipper_join3(lhs, mid, rhs, out),
        );
    }
    // meet
    {
        let expected: Paths = &[(b"abcdefg", 0), (b"1", 4), (b"4", 7), (b"5", 8)];
        check3(&ALMOST_IDENTICAL_PATHS_3, expected, |lhs, mid, rhs, out| {
            zipper_meet3(lhs, mid, rhs, out);
        });
    }
    // subtract
    {
        check3(&ALMOST_IDENTICAL_PATHS_3, [], |lhs, mid, rhs, out| {
            zipper_subtract3(lhs, mid, rhs, out);
        });
    }
}

#[test]
fn zipper_algebra_test_almost_identical_paths_n() {
    // join
    {
        checkn(
            &ALMOST_IDENTICAL_PATHS_N,
            ALMOST_IDENTICAL_PATHS_N[0],
            |mut zs, mut out| zipper_n_join(&mut zs, &mut out),
        );
    }
    // meet
    {
        let expected: Paths = &[(b"1", 4), (b"4", 7), (b"5", 8)];
        checkn(
            &ALMOST_IDENTICAL_PATHS_N,
            expected,
            |mut zs, mut out| zipper_n_meet(&mut zs, &mut out),
        );
    }
    // subtract
    {
        checkn(
            &ALMOST_IDENTICAL_PATHS_N,
            [],
            |mut zs, mut out| zipper_n_subtract(&mut zs, &mut out),
        );
    }
}

#[test]
fn zipper_algebra_test_one_side_empty() {
    // join
    {
        check2(&LHS_EMPTY, LHS_EMPTY.1, |lhs, rhs, out| lhs.join(rhs, out));
        check2(&RHS_EMPTY, RHS_EMPTY.0, |lhs, rhs, out| lhs.join(rhs, out));
    }
    // meet
    {
        check2(&LHS_EMPTY, [], |lhs, rhs, out| lhs.meet(rhs, out));
        check2(&RHS_EMPTY, [], |lhs, rhs, out| lhs.meet(rhs, out));
    }
    // subtract
    {
        check2(&LHS_EMPTY, [], |lhs, rhs, out| lhs.subtract(rhs, out));
        check2(&RHS_EMPTY, RHS_EMPTY.0, |lhs, rhs, out| {
            lhs.subtract(rhs, out)
        });
    }
}

#[test]
fn zipper_algebra_test_one_side_empty3() {
    // join
    {
        check3(
            &LHS_EMPTY_3,
            &[LHS_EMPTY_3.1, LHS_EMPTY_3.2].concat(),
            |lhs, mid, rhs, out| zipper_join3(lhs, mid, rhs, out),
        );
        check3(
            &MID_EMPTY,
            &[MID_EMPTY.0, MID_EMPTY.2].concat(),
            |lhs, mid, rhs, out| zipper_join3(lhs, mid, rhs, out),
        );
        check3(
            &RHS_EMPTY_3,
            &[RHS_EMPTY_3.0, RHS_EMPTY_3.1].concat(),
            |lhs, mid, rhs, out| zipper_join3(lhs, mid, rhs, out),
        );
    }
    // meet
    {
        check3(&LHS_EMPTY_3, [], |lhs, mid, rhs, out| {
            zipper_meet3(lhs, mid, rhs, out)
        });
        check3(&MID_EMPTY, [], |lhs, mid, rhs, out| {
            zipper_meet3(lhs, mid, rhs, out)
        });
        check3(&RHS_EMPTY_3, [], |lhs, mid, rhs, out| {
            zipper_meet3(lhs, mid, rhs, out)
        });
    }
    // subtract
    {
        check3(&LHS_EMPTY_3, [], |lhs, mid, rhs, out| {
            zipper_subtract3(lhs, mid, rhs, out);
        });
        check3(&MID_EMPTY, MID_EMPTY.0, |lhs, mid, rhs, out| {
            zipper_subtract3(lhs, mid, rhs, out);
        });
        check3(&RHS_EMPTY_3, RHS_EMPTY_3.0, |lhs, mid, rhs, out| {
            zipper_subtract3(lhs, mid, rhs, out);
        });
    }
}

#[test]
fn zipper_algebra_test_one_side_empty_n() {
    // join
    {
        checkn(
            &LHS_EMPTY_N,
            &[
                LHS_EMPTY_N[1],
                LHS_EMPTY_N[2],
                LHS_EMPTY_N[3],
                LHS_EMPTY_N[4],
                LHS_EMPTY_N[5],
            ]
            .concat(),
            |mut zs, mut out| zipper_n_join(&mut zs, &mut out),
        );
        checkn(
            &MID_EMPTY_N,
            &[
                MID_EMPTY_N[0],
                MID_EMPTY_N[1],
                MID_EMPTY_N[3],
                MID_EMPTY_N[4],
                MID_EMPTY_N[5],
            ]
            .concat(),
            |mut zs, mut out| zipper_n_join(&mut zs, &mut out),
        );
        checkn(
            &RHS_EMPTY_N,
            &[
                RHS_EMPTY_N[0],
                RHS_EMPTY_N[1],
                RHS_EMPTY_N[2],
                RHS_EMPTY_N[3],
                RHS_EMPTY_N[4],
            ]
            .concat(),
            |mut zs, mut out| zipper_n_join(&mut zs, &mut out),
        );
    }
    // meet
    {
        checkn(
            &LHS_EMPTY_N,
            [],
            |mut zs, mut out| zipper_n_meet(&mut zs, &mut out),
        );
        checkn(
            &MID_EMPTY_N,
            [],
            |mut zs, mut out| zipper_n_meet(&mut zs, &mut out),
        );
        checkn(
            &RHS_EMPTY_N,
            [],
            |mut zs, mut out| zipper_n_meet(&mut zs, &mut out),
        );
    }
    // subtract
    {
        checkn(
            &LHS_EMPTY_N,
            [],
            |mut zs, mut out| zipper_n_subtract(&mut zs, &mut out),
        );
        checkn(
            &MID_EMPTY_N,
            MID_EMPTY_N[0],
            |mut zs, mut out| zipper_n_subtract(&mut zs, &mut out),
        );
        checkn(
            &RHS_EMPTY_N,
            RHS_EMPTY_N[0],
            |mut zs, mut out| zipper_n_subtract(&mut zs, &mut out),
        );
    }
}

#[test]
fn zipper_algebra_test_exact_overlap_divergent_subtries() {
    // join
    {
        let expected: Paths = &[
            (&[1, 2, 3], 0),
            (&[1, 2, 3, 4], 1),
            (&[1, 2, 3, 5], 11),
            (&[1, 2, 3, 10, 11, 0], 12),
            (&[1, 2, 3, 10, 11, 12], 2),
        ];
        check2(
            &PATHS_WITH_SAME_PREFIX_DIFFERENT_CHILDREN,
            expected,
            |lhs, rhs, out| lhs.join(rhs, out),
        );
    }
    // meet
    {
        let expected: Paths = &[(&[1, 2, 3], 0)];
        check2(
            &PATHS_WITH_SAME_PREFIX_DIFFERENT_CHILDREN,
            expected,
            |lhs, rhs, out| lhs.meet(rhs, out),
        );
    }
    // subtract
    {
        check2(
            &PATHS_WITH_SAME_PREFIX_DIFFERENT_CHILDREN,
            PATHS_WITH_SAME_PREFIX_DIFFERENT_CHILDREN.0,
            |lhs, rhs, out| lhs.subtract(rhs, out),
        );
    }
}

#[test]
fn zipper_algebra_test_exact_overlap_divergent_subtries3() {
    // join
    {
        let expected: Paths = &[
            (&[1, 2, 3], 0),
            (&[1, 2, 3, 4], 1),
            (&[1, 2, 3, 5], 11),
            (&[1, 2, 3, 6], 21),
            (&[1, 2, 3, 10, 11, 0], 12),
            (&[1, 2, 3, 10, 11, 1], 22),
            (&[1, 2, 3, 10, 11, 12], 2),
        ];
        check3(
            &PATHS_WITH_SAME_PREFIX_DIFFERENT_CHILDREN_3,
            expected,
            |lhs, mid, rhs, out| zipper_join3(lhs, mid, rhs, out),
        );
    }
    // meet
    {
        let expected: Paths = &[(&[1, 2, 3], 0)];
        check3(
            &PATHS_WITH_SAME_PREFIX_DIFFERENT_CHILDREN_3,
            expected,
            |lhs, mid, rhs, out| zipper_meet3(lhs, mid, rhs, out),
        );
    }
    // subtract
    {
        check3(
            &PATHS_WITH_SAME_PREFIX_DIFFERENT_CHILDREN_3,
            PATHS_WITH_SAME_PREFIX_DIFFERENT_CHILDREN_3.0,
            |lhs, mid, rhs, out| {
                zipper_subtract3(lhs, mid, rhs, out);
            },
        );
    }
}

#[test]
fn zipper_algebra_test_exact_overlap_divergent_subtries_n() {
    // join
    {
        let expected: Paths = &[
            (&[1, 2, 3], 0),
            (&[1, 2, 3, 4], 1),
            (&[1, 2, 3, 5], 11),
            (&[1, 2, 3, 6], 21),
            (&[1, 2, 3, 7], 31),
            (&[1, 2, 3, 8], 41),
            (&[1, 2, 3, 9], 51),
            (&[1, 2, 3, 10, 11, 0], 12),
            (&[1, 2, 3, 10, 11, 1], 22),
            (&[1, 2, 3, 10, 11, 2], 32),
            (&[1, 2, 3, 10, 11, 3], 42),
            (&[1, 2, 3, 10, 11, 4], 52),
            (&[1, 2, 3, 10, 11, 12], 2),
        ];
        checkn(
            &PATHS_WITH_SAME_PREFIX_DIFFERENT_CHILDREN_N,
            expected,
            |mut zs, mut out| zipper_n_join(&mut zs, &mut out),
        );
    }
    // meet
    {
        let expected: Paths = &[(&[1, 2, 3], 0)];
        checkn(
            &PATHS_WITH_SAME_PREFIX_DIFFERENT_CHILDREN_N,
            expected,
            |mut zs, mut out| zipper_n_meet(&mut zs, &mut out),
        );
    }
    // subtract
    {
        checkn(
            &PATHS_WITH_SAME_PREFIX_DIFFERENT_CHILDREN_N,
            PATHS_WITH_SAME_PREFIX_DIFFERENT_CHILDREN_N[0],
            |mut zs, mut out| zipper_n_subtract(&mut zs, &mut out),
        );
    }
}

#[test]
fn zipper_algebra_test_zigzag() {
    // join
    {
        check2(
            &ZIGZAG_PATHS,
            &[ZIGZAG_PATHS.0, ZIGZAG_PATHS.1].concat(),
            |lhs, rhs, out| lhs.join(rhs, out),
        );
    }
    // meet
    {
        let expected: Paths = &[(&[2, 1], 2), (&[3], 3)];
        check2(&ZIGZAG_PATHS, expected, |lhs, rhs, out| {
            lhs.meet(rhs, out);
        });
    }
    // subtract
    {
        let expected: Paths = &[
            (&[1, 1], 0),
            (&[2], 1),
            (&[3, 2, 1], 4),
            (&[4], 4),
            (&[4, 3, 2, 1], 5),
        ];
        check2(&ZIGZAG_PATHS, expected, |lhs, rhs, out| {
            lhs.subtract(rhs, out)
        });
    }
}

#[test]
fn zipper_algebra_test_zigzag3() {
    // join
    {
        check3(
            &ZIGZAG_PATHS_3,
            &[ZIGZAG_PATHS_3.0, ZIGZAG_PATHS_3.1, ZIGZAG_PATHS_3.2].concat(),
            |lhs, mid, rhs, out| zipper_join3(lhs, mid, rhs, out),
        );
    }
    // meet
    {
        let expected: Paths = &[(&[2, 1], 2)];
        check3(&ZIGZAG_PATHS_3, expected, |lhs, mid, rhs, out| {
            zipper_meet3(lhs, mid, rhs, out)
        });
    }
    // subtract
    {
        let expected: Paths = &[(&[1, 1], 0), (&[3, 2, 1], 4), (&[4], 4)];
        check3(&ZIGZAG_PATHS_3, expected, |lhs, mid, rhs, out| {
            zipper_subtract3(lhs, mid, rhs, out);
        });
    }
}

#[test]
fn zipper_algebra_test_root_values() {
    // join
    {
        check2(
            &PATHS_WITH_ROOT_VALS_AND_CHILDREN,
            PATHS_WITH_ROOT_VALS_AND_CHILDREN.0,
            |lhs, rhs, out| lhs.join(rhs, out),
        );
    }
    // meet
    {
        check2(
            &PATHS_WITH_ROOT_VALS_AND_CHILDREN,
            PATHS_WITH_ROOT_VALS_AND_CHILDREN.0,
            |lhs, rhs, out| lhs.meet(rhs, out),
        );
    }
    // subtract
    {
        check2(
            &PATHS_WITH_ROOT_VALS_AND_CHILDREN,
            PATHS_WITH_ROOT_VALS_AND_CHILDREN.0,
            |lhs, rhs, out| lhs.subtract(rhs, out),
        );
    }
}

#[test]
fn zipper_algebra_test_root_values3() {
    // join
    {
        check3(
            &PATHS_WITH_ROOT_VALS_AND_CHILDREN_3,
            PATHS_WITH_ROOT_VALS_AND_CHILDREN_3.0,
            |lhs, mid, rhs, out| zipper_join3(lhs, mid, rhs, out),
        );
    }
    // meet
    {
        check3(
            &PATHS_WITH_ROOT_VALS_AND_CHILDREN_3,
            PATHS_WITH_ROOT_VALS_AND_CHILDREN.0,
            |lhs, mid, rhs, out| zipper_meet3(lhs, mid, rhs, out),
        );
    }
    // subtract
    {
        check3(
            &PATHS_WITH_ROOT_VALS_AND_CHILDREN_3,
            PATHS_WITH_ROOT_VALS_AND_CHILDREN_3.0,
            |lhs, mid, rhs, out| {
                zipper_subtract3(lhs, mid, rhs, out);
            },
        );
    }
}

#[test]
fn zipper_algebra_test_root_values_n() {
    // join
    {
        checkn(
            &PATHS_WITH_ROOT_VALS_AND_CHILDREN_N,
            PATHS_WITH_ROOT_VALS_AND_CHILDREN_N[0],
            |mut zs, mut out| zipper_n_join(&mut zs, &mut out),
        );
    }
    // meet
    {
        checkn(
            &PATHS_WITH_ROOT_VALS_AND_CHILDREN_N,
            PATHS_WITH_ROOT_VALS_AND_CHILDREN_N[0],
            |mut zs, mut out| zipper_n_meet(&mut zs, &mut out),
        );
    }
    // subtract
    {
        checkn(
            &PATHS_WITH_ROOT_VALS_AND_CHILDREN_N,
            PATHS_WITH_ROOT_VALS_AND_CHILDREN_N[0],
            |mut zs, mut out| zipper_n_subtract(&mut zs, &mut out),
        );
    }
}

fn value_pairs(map: &PathMap<u64>) -> Vec<(Vec<u8>, u64)> {
    let mut z = map.read_zipper();
    let mut out = Vec::new();
    if let Some(v) = ZipperMoving::val(&z) {
        out.push((Vec::new(), *v));
    }
    while let Some(v) = z.to_next_get_val() {
        let v = *v;
        out.push((ZipperMoving::path(&z).to_vec(), v));
    }
    out
}

fn assert_trie_map(expected: PathMap<u64>, result: PathMap<u64>) {
    let pairs = value_pairs(&expected);
    assert_trie(pairs.iter().map(|(p, v)| (p.as_slice(), *v)), result);
}

const SMALL_TRIE_1: Paths = &[(&[0, 1, 2], 1), (&[0, 1, 3], 2)];
const SMALL_TRIE_2: Paths = &[(&[0, 1], 1), (&[0, 2], 2), (&[3], 3), (&[2, 3], 4)];
const SMALL_TRIE_3: Paths = &[(&[0, 1, 2], 1), (&[0, 1, 3], 2), (&[0, 1, 4], 3)];

#[test]
fn test_single_clause_multiple_zippers() {
    let trie1 = PathMap::from_iter(SMALL_TRIE_1);
    let trie2 = PathMap::from_iter(SMALL_TRIE_2);
    let trie3 = PathMap::from_iter(SMALL_TRIE_3);

    let mut z1 = trie1.read_zipper();
    let mut z2 = trie2.read_zipper();
    let mut z3 = trie3.read_zipper();

    let mut result = PathMap::new();
    let mut out = result.write_zipper();
    zipper_merge_dnf(&[&[&z1, &z2, &z3][..]], &mut out);

    let mut expected = PathMap::new();
    {
        z1.reset();
        z2.reset();
        z3.reset();
        zipper_meet3(&mut z1, &mut z2, &mut z3, &mut expected.write_zipper());
    }

    assert_trie_map(expected, result);
}

#[test]
fn test_multiple_singleton_clauses() {
    let trie1 = PathMap::from_iter(SMALL_TRIE_1);
    let trie2 = PathMap::from_iter(SMALL_TRIE_2);
    let trie3 = PathMap::from_iter(SMALL_TRIE_3);

    let mut z1 = trie1.read_zipper();
    let mut z2 = trie2.read_zipper();
    let mut z3 = trie3.read_zipper();

    let mut result = PathMap::new();
    let mut out = result.write_zipper();
    zipper_merge_dnf(&[&[&z1][..], &[&z2][..], &[&z3][..]], &mut out);

    let mut expected = PathMap::new();
    {
        z1.reset();
        z2.reset();
        z3.reset();
        zipper_join3(&mut z1, &mut z2, &mut z3, &mut expected.write_zipper());
    }

    assert_trie_map(expected, result);
}

#[test]
fn test_partial_overlap_1() {
    let trie1 = PathMap::from_iter(SMALL_TRIE_1);
    let trie2 = PathMap::from_iter(SMALL_TRIE_2);
    let trie3 = PathMap::from_iter(SMALL_TRIE_3);

    let z2 = trie2.read_zipper();
    let z3 = trie3.read_zipper();

    let mut result = PathMap::new();
    let mut out = result.write_zipper();
    zipper_merge_dnf(
        &[
            &[&trie1.read_zipper(), &z2][..],
            &[&trie1.read_zipper(), &z3][..],
        ],
        &mut out,
    );
    let expected = trie1.meet(&trie2.join(&trie3));
    assert_trie_map(expected, result);
}

#[test]
fn test_partial_overlap_2() {
    let trie1 = PathMap::from_iter(SMALL_TRIE_1);
    let trie2 = PathMap::from_iter(SMALL_TRIE_2);
    let trie3 = PathMap::from_iter(SMALL_TRIE_3);

    let z1 = trie1.read_zipper();
    let z3 = trie3.read_zipper();

    let mut result = PathMap::new();
    let mut out = result.write_zipper();
    zipper_merge_dnf(
        &[
            &[&z1, &trie2.read_zipper()][..],
            &[&trie2.read_zipper(), &z3][..],
        ],
        &mut out,
    );
    let expected = trie2.meet(&trie1.join(&trie3));
    assert_trie_map(expected, result);
}

const FOR_MERKLEIZATION: Paths = &[
    // X
    (&[0b100000, 0b00, 0b0001], 1),
    (&[0b100000, 0b00, 0b0011], 2),
    (&[0b100000, 0b00, 0b0111], 3),
    (&[0b100000, 0b00, 0b1111], 4),
    (&[0b010000, 0b00, 0b0001], 1),
    (&[0b010000, 0b00, 0b0011], 2),
    (&[0b010000, 0b00, 0b0111], 3),
    (&[0b010000, 0b00, 0b1111], 4),
    // Y
    (&[0b001000, 0b01, 0b0001], 5),
    (&[0b001000, 0b01, 0b0011], 6),
    (&[0b001000, 0b01, 0b0111], 7),
    (&[0b001000, 0b01, 0b1111], 8),
    (&[0b000100, 0b01, 0b0001], 5),
    (&[0b000100, 0b01, 0b0011], 6),
    (&[0b000100, 0b01, 0b0111], 7),
    (&[0b000100, 0b01, 0b1111], 8),
    // Z
    (&[0b000010, 0b11, 0b0001], 9),
    (&[0b000010, 0b11, 0b0011], 10),
    (&[0b000010, 0b11, 0b0111], 11),
    (&[0b000010, 0b11, 0b1111], 12),
    (&[0b000001, 0b11, 0b0001], 9),
    (&[0b000001, 0b11, 0b0011], 10),
    (&[0b000001, 0b11, 0b0111], 11),
    (&[0b000001, 0b11, 0b1111], 12),
];

fn prefixed(rz: &ReadZipper<u64>, path: &[u8]) -> PathMap<u64> {
    let mut res = PathMap::new();
    let mut out = res.write_zipper_at_path(path);
    out.graft(rz);
    res
}

#[test]
fn test_merkleization() {
    let mut map = PathMap::from_iter(FOR_MERKLEIZATION);
    let merkelize_result = map.merkleize();
    assert!(merkelize_result.reused > 0);

    let mut r1 = map.read_zipper();
    let mut r2 = map.read_zipper();
    let mut r3 = map.read_zipper();
    let mut r4 = map.read_zipper();
    let mut r5 = map.read_zipper();
    let mut r6 = map.read_zipper();

    r1.descend_to_byte(0b000001);
    r2.descend_to_byte(0b000010);
    r3.descend_to_byte(0b000100);
    r4.descend_to_byte(0b001000);
    r5.descend_to_byte(0b010000);
    r6.descend_to_byte(0b100000);

    // this one simulates X \/ X, where X is shared
    let mut result0 = PathMap::new();
    let mut w0 = result0.write_zipper();
    pathmap::zipper_algebra::zipper_join(&mut r1, &mut r2, &mut w0);
    let expected0: Paths = &[
        (&[0b11, 0b0001], 9),
        (&[0b11, 0b0011], 10),
        (&[0b11, 0b0111], 11),
        (&[0b11, 0b1111], 12),
    ];
    assert_trie(expected0.iter().copied(), result0);

    let map1 = prefixed(&r3, &[0]);
    let map2 = prefixed(&r4, &[0]);
    let r31 = map1.read_zipper();
    let r32 = map1.read_zipper();
    let r33 = map1.read_zipper();
    let r41 = map2.read_zipper();
    let r42 = map2.read_zipper();
    let r43 = map2.read_zipper();

    // this one simulates X.prefixed(0) /\ X.prefixed(0) ..., where X is shared
    let mut result1 = PathMap::new();
    let mut w1 = result1.write_zipper();
    zipper_n_meet(&mut [r31, r32, r33, r41, r42, r43], &mut w1);
    let expected1: Paths = &[
        (&[0b0, 0b01, 0b0001], 5),
        (&[0b0, 0b01, 0b0011], 6),
        (&[0b0, 0b01, 0b0111], 7),
        (&[0b0, 0b01, 0b1111], 8),
    ];
    assert_trie(expected1.iter().copied(), result1);

    let map3 = prefixed(&r5, &[0]);
    let map4 = prefixed(&r6, &[1]);
    let r51 = map3.read_zipper();
    let r52 = map3.read_zipper();
    let r53 = map3.read_zipper();
    let r54 = map3.read_zipper();
    let r61 = map4.read_zipper();
    let r62 = map4.read_zipper();
    let r63 = map4.read_zipper();

    // this one simulates X.prefixed(0) \/ X.prefixed(0) ... \/ X.prefixed(1) \/ ..., where X is shared
    let mut result2 = PathMap::new();
    let mut w2 = result2.write_zipper();
    zipper_n_join(&mut [r51, r52, r53, r54, r61, r62, r63], &mut w2);
    let expected2: Paths = &[
        (&[0b0, 0b00, 0b0001], 1),
        (&[0b0, 0b00, 0b0011], 2),
        (&[0b0, 0b00, 0b0111], 3),
        (&[0b0, 0b00, 0b1111], 4),
        (&[0b1, 0b00, 0b0001], 1),
        (&[0b1, 0b00, 0b0011], 2),
        (&[0b1, 0b00, 0b0111], 3),
        (&[0b1, 0b00, 0b1111], 4),
    ];
    assert_trie(expected2.iter().copied(), result2);
}

#[test]
fn test_empty_clause_adds_nothing() {
    let trie1 = PathMap::from_iter(SMALL_TRIE_1);
    let trie2 = PathMap::from_iter(SMALL_TRIE_2);

    let z1 = trie1.read_zipper();
    let z2 = trie2.read_zipper();

    let mut result = PathMap::new();
    let mut out = result.write_zipper();
    zipper_merge_dnf(&[&[][..], &[&z1][..], &[][..], &[&z2][..]], &mut out);

    let mut expected = PathMap::new();
    {
        let mut a = trie1.read_zipper();
        let mut b = trie2.read_zipper();
        a.join(&mut b, &mut expected.write_zipper());
    }

    assert_trie_map(expected, result);

    let mut nothing = PathMap::new();
    let mut out = nothing.write_zipper();
    let no_zippers: &[&ReadZipper<u64>] = &[];
    zipper_merge_dnf(&[no_zippers], &mut out);
    assert_eq!(value_pairs(&nothing), vec![]);
}

#[test]
fn meet_of_a_trie_with_itself_keeps_it_whole() {
    let mut map = PathMap::<u64>::new();
    map.insert(b"ab", 1);
    map.insert(b"c", 2);
    map.create_path(b"dangling");

    let mut l = map.read_zipper();
    let mut r = map.read_zipper();
    let mut met = PathMap::new();
    l.meet(&mut r, &mut met.write_zipper());
    assert!(met.path_exists_at(b"dangling"));
    assert_eq!(met.get_val_at(b"ab"), Some(&1));
    assert_eq!(met.get_val_at(b"c"), Some(&2));
    assert_eq!(met.val_count(), 2);

    let mut z1 = map.read_zipper();
    let mut z2 = map.read_zipper();
    let mut z3 = map.read_zipper();
    let mut met3 = PathMap::new();
    zipper_meet3(&mut z1, &mut z2, &mut z3, &mut met3.write_zipper());
    assert!(met3.path_exists_at(b"dangling"));
    assert_eq!(met3.val_count(), 2);

    let whole = map.meet(&map);
    assert!(whole.path_exists_at(b"dangling"));
    assert_eq!(whole.val_count(), 2);

    let mut other = map.clone_map();
    other.insert(b"c", 3);
    let pruned = map.meet(&other);
    assert!(!pruned.path_exists_at(b"dangling"));
    assert_eq!(pruned.get_val_at(b"ab"), Some(&1));

    let mut l = map.read_zipper();
    let mut r = other.read_zipper();
    let mut met = PathMap::new();
    l.meet(&mut r, &mut met.write_zipper());
    assert!(!met.path_exists_at(b"dangling"));
    assert_eq!(met.get_val_at(b"ab"), Some(&1));
}
