use pathmap::pathmap::PathMap;
use pathmap::ring::{AlgebraicResult, DistributiveLattice, Lattice, SELF_IDENT};
use pathmap::subtract_zipper::SubtractZipper;
use pathmap::zipper_moving::{ZipperIteration, ZipperMoving, ZipperSubtries};

#[derive(Clone, Copy, Debug, Eq, Ord, PartialEq, PartialOrd)]
struct DiffValue(u8);

impl Lattice for DiffValue {
    fn join_spec(&self, other: &Self) -> AlgebraicResult<Self> {
        self.pjoin(other)
    }

    fn meet_spec(&self, other: &Self) -> AlgebraicResult<Self> {
        self.pmeet(other)
    }

    fn pjoin(&self, other: &Self) -> AlgebraicResult<Self> {
        if self == other {
            AlgebraicResult::Identity(SELF_IDENT)
        } else {
            AlgebraicResult::Element(DiffValue(self.0.max(other.0)))
        }
    }

    fn pmeet(&self, other: &Self) -> AlgebraicResult<Self> {
        if self == other {
            AlgebraicResult::Identity(SELF_IDENT)
        } else {
            AlgebraicResult::Empty
        }
    }
}

impl DistributiveLattice for DiffValue {
    fn subtract_spec(&self, other: &Self) -> AlgebraicResult<Self> {
        self.psubtract(other)
    }

    fn psubtract(&self, other: &Self) -> AlgebraicResult<Self> {
        match self.0.cmp(&other.0) {
            core::cmp::Ordering::Equal => AlgebraicResult::Empty,
            core::cmp::Ordering::Greater => {
                AlgebraicResult::Element(DiffValue(self.0 - other.0))
            }
            core::cmp::Ordering::Less => AlgebraicResult::Identity(SELF_IDENT),
        }
    }
}

fn collect_observed_pathspace<Z, V>(zipper: &mut Z, out: &mut Vec<(Vec<u8>, Option<V>)>)
where
    Z: ZipperMoving<Val = V>,
    V: Copy,
{
    if zipper.path_exists() {
        out.push((zipper.path().to_vec(), zipper.val().cloned()));
    }

    let child_count = zipper.child_count();
    for child_idx in 0..child_count {
        assert!(zipper.descend_indexed_byte(child_idx));
        collect_observed_pathspace(zipper, out);
        assert!(zipper.ascend_byte());
    }
}

fn observed_pathspace<Z, V>(mut zipper: Z) -> Vec<(Vec<u8>, Option<V>)>
where
    Z: ZipperMoving<Val = V>,
    V: Copy + Ord,
{
    let mut out = Vec::new();
    collect_observed_pathspace(&mut zipper, &mut out);
    out.sort();
    out
}

fn assert_same_observed_pathspace<ExpectedZ, ActualZ, V>(expected: ExpectedZ, actual: ActualZ)
where
    ExpectedZ: ZipperMoving<Val = V>,
    ActualZ: ZipperMoving<Val = V>,
    V: Copy + Ord + core::fmt::Debug,
{
    assert_eq!(observed_pathspace(expected), observed_pathspace(actual));
}

#[test]
fn dpa_subtract_zipper_matches_eager_subtract_pathspace() {
    let mut left = PathMap::<DiffValue>::new();
    left.set_val_at(b"", DiffValue(10));
    left.set_val_at(b"left-only/value", DiffValue(7));
    left.create_path(b"dangling/preserved");
    left.create_path(b"dangling/left-only");
    left.create_path(b"dangling/shared");
    left.set_val_at(b"shared/remove", DiffValue(4));
    left.set_val_at(b"shared/owned", DiffValue(9));
    left.set_val_at(b"shared/identity", DiffValue(2));
    left.set_val_at(b"branch/mixed/a", DiffValue(1));
    left.set_val_at(b"branch/mixed/c", DiffValue(8));

    let mut right = PathMap::<DiffValue>::new();
    right.set_val_at(b"", DiffValue(10));
    right.create_path(b"dangling/shared");
    right.create_path(b"dangling/left-only/child");
    right.set_val_at(b"shared/remove", DiffValue(4));
    right.set_val_at(b"shared/owned", DiffValue(3));
    right.set_val_at(b"shared/identity", DiffValue(5));
    right.set_val_at(b"branch/mixed/a", DiffValue(1));
    right.set_val_at(b"branch/mixed/b", DiffValue(9));
    right.set_val_at(b"right-only/value", DiffValue(1));

    let eager = left.subtract(&right);
    let lazy = SubtractZipper::new(left.read_zipper(), right.read_zipper());
    assert_same_observed_pathspace(eager.read_zipper(), lazy);

    assert_eq!(eager.get_val_at(b""), None);
    assert_eq!(eager.get_val_at(b"left-only/value"), Some(&DiffValue(7)));
    assert!(eager.path_exists_at(b"dangling/preserved"));
    assert!(!eager.path_exists_at(b"dangling/left-only"));
    assert!(!eager.path_exists_at(b"dangling/shared"));
    assert!(!eager.path_exists_at(b"shared/remove"));
    assert_eq!(eager.get_val_at(b"shared/owned"), Some(&DiffValue(6)));
    assert_eq!(eager.get_val_at(b"shared/identity"), Some(&DiffValue(2)));
    assert!(!eager.path_exists_at(b"branch/mixed/a"));
    assert_eq!(eager.get_val_at(b"branch/mixed/c"), Some(&DiffValue(8)));
    assert!(!eager.path_exists_at(b"right-only/value"));

    let focus = b"shared/";
    let focused_eager = eager.read_zipper_at_path(focus);
    let focused_lazy = SubtractZipper::new(
        left.read_zipper_at_path(focus),
        right.read_zipper_at_path(focus),
    );
    assert_same_observed_pathspace(focused_eager, focused_lazy);
}

#[test]
fn subtract_zipper_materializes_eager_subtract_pathspace() {
    let mut left = PathMap::<DiffValue>::new();
    left.set_val_at(b"left-only/value", DiffValue(7));
    left.create_path(b"dangling/preserved");
    left.create_path(b"dangling/shared");
    left.set_val_at(b"shared/remove", DiffValue(4));
    left.set_val_at(b"shared/owned", DiffValue(9));
    left.set_val_at(b"shared/identity", DiffValue(2));

    let mut right = PathMap::<DiffValue>::new();
    right.create_path(b"dangling/shared");
    right.set_val_at(b"shared/remove", DiffValue(4));
    right.set_val_at(b"shared/owned", DiffValue(3));
    right.set_val_at(b"shared/identity", DiffValue(5));
    right.set_val_at(b"right-only/value", DiffValue(1));

    let eager = left.subtract(&right);
    let lazy = SubtractZipper::new(left.read_zipper(), right.read_zipper());
    let materialized = lazy.try_make_map().unwrap();

    assert!(!lazy.native_subtries());
    assert_same_observed_pathspace(eager.read_zipper(), materialized.read_zipper());
    assert!(materialized.path_exists_at(b"dangling/preserved"));
    assert!(!materialized.path_exists_at(b"dangling/shared"));
    assert_eq!(
        materialized.get_val_at(b"shared/owned"),
        Some(&DiffValue(6))
    );
}

#[test]
fn subtract_zipper_materializes_current_focus_relative_pathspace() {
    let mut left = PathMap::<DiffValue>::new();
    left.set_val_at(b"left-only/value", DiffValue(7));
    left.create_path(b"dangling/preserved");
    left.create_path(b"dangling/shared");
    left.set_val_at(b"shared/remove", DiffValue(4));
    left.set_val_at(b"shared/owned", DiffValue(9));
    left.set_val_at(b"shared/identity", DiffValue(2));

    let mut right = PathMap::<DiffValue>::new();
    right.create_path(b"dangling/shared");
    right.set_val_at(b"shared/remove", DiffValue(4));
    right.set_val_at(b"shared/owned", DiffValue(3));
    right.set_val_at(b"shared/identity", DiffValue(5));
    right.set_val_at(b"right-only/value", DiffValue(1));

    let eager = left.subtract(&right);
    let focus = b"shared/";
    let focused_eager = eager.read_zipper_at_path(focus).make_map();

    let mut lazy = SubtractZipper::new(left.read_zipper(), right.read_zipper());
    lazy.descend_to(focus);
    let materialized = lazy.try_make_map().unwrap();

    assert_same_observed_pathspace(focused_eager.read_zipper(), materialized.read_zipper());
    assert_eq!(materialized.get_val_at(b"owned"), Some(&DiffValue(6)));
    assert_eq!(materialized.get_val_at(b"identity"), Some(&DiffValue(2)));
    assert!(!materialized.path_exists_at(b"shared/owned"));
    assert!(!materialized.path_exists_at(b"remove"));
}

#[test]
fn subtract_zipper_iterates_values() {
    let left = PathMap::from_iter(&[(&b"a"[..], true), (&b"b"[..], false), (&b"c"[..], true)]);
    let right = PathMap::from_iter(&[(&b"a"[..], true), (&b"b"[..], true)]);

    let mut lazy = SubtractZipper::new(left.read_zipper(), right.read_zipper());
    let mut paths = Vec::new();
    if lazy.is_val() {
        paths.push(lazy.path().to_vec());
    }
    while lazy.to_next_val() {
        paths.push(lazy.path().to_vec());
    }

    assert_eq!(paths, vec![b"b".to_vec(), b"c".to_vec()]);
}
