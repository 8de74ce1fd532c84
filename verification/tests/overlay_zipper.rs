use pathmap::overlay_zipper::{OverlayMapping, OverlayZipper};
use pathmap::pathmap::PathMap;
use pathmap::zipper_moving::{ZipperIteration, ZipperMoving, ZipperSubtries};

fn collect_observed_pathspace<Z, V>(zipper: &mut Z, paths: &mut Vec<(Vec<u8>, Option<V>)>)
where
    Z: ZipperMoving<Val = V>,
    V: Copy,
{
    if zipper.path_exists() {
        paths.push((zipper.path().to_vec(), zipper.val().cloned()));
    }

    let child_count = zipper.child_count();
    for child_idx in 0..child_count {
        assert!(zipper.descend_indexed_byte(child_idx));
        collect_observed_pathspace(zipper, paths);
        assert!(zipper.ascend_byte());
    }
}

fn observed_pathspace<Z, V>(zipper: &mut Z) -> Vec<(Vec<u8>, Option<V>)>
where
    Z: ZipperMoving<Val = V>,
    V: Copy + Ord,
{
    let mut paths = Vec::new();
    collect_observed_pathspace(zipper, &mut paths);
    paths.sort();
    paths
}

fn assert_same_observed_pathspace<Z, V>(expected: &PathMap<V>, actual: &mut Z)
where
    Z: ZipperMoving<Val = V>,
    V: Copy + Ord + core::fmt::Debug,
{
    let mut expected_zipper = expected.read_zipper();
    assert_eq!(
        observed_pathspace(actual),
        observed_pathspace(&mut expected_zipper)
    );
}

#[derive(Clone, Copy)]
struct RightOnly;

impl OverlayMapping<u8, u8> for RightOnly {
    type Out = u8;

    fn map_spec(&self, _a_val: Option<u8>, b_val: Option<u8>) -> Option<u8> {
        b_val
    }

    fn map<'a>(&self, _a_val: Option<&'a u8>, b_val: Option<&'a u8>) -> Option<&'a u8> {
        b_val
    }
}

#[test]
fn overlay_val_count_counts_virtual_union_once() {
    let mut a = PathMap::<()>::new();
    a.insert(b"", ());
    a.insert(b"a", ());
    a.insert(b"aa", ());
    a.insert(b"b", ());

    let mut b = PathMap::<()>::new();
    b.insert(b"", ());
    b.insert(b"a", ());
    b.insert(b"ab", ());
    b.insert(b"c", ());

    let overlay = OverlayZipper::new(a.read_zipper(), b.read_zipper());

    assert_eq!(overlay.val_count(), 6);
}

#[test]
fn overlay_val_count_respects_current_focus() {
    let mut a = PathMap::<()>::new();
    a.insert(b"a", ());
    a.insert(b"aa", ());
    a.insert(b"ax", ());
    a.insert(b"b", ());

    let mut b = PathMap::<()>::new();
    b.insert(b"a", ());
    b.insert(b"ab", ());
    b.insert(b"ay", ());
    b.insert(b"c", ());

    let overlay = OverlayZipper::new(a.read_zipper_at_path(b"a"), b.read_zipper_at_path(b"a"));

    assert_eq!(overlay.val_count(), 5);
}

#[test]
fn overlay_val_count_uses_the_value_mapping() {
    let mut a = PathMap::<u8>::new();
    a.insert(b"", 1);
    a.insert(b"a", 1);
    a.insert(b"b", 1);

    let mut b = PathMap::<u8>::new();
    b.insert(b"a", 2);
    b.insert(b"c", 2);

    let overlay = OverlayZipper::with_mapping(a.read_zipper(), b.read_zipper(), RightOnly);

    assert_eq!(overlay.val_count(), 2);
}

#[test]
fn dpa_overlay_zipper_matches_eager_join_observations() {
    let mut left = PathMap::<()>::new();
    left.insert(b"", ());
    left.insert(b"shared:value", ());
    left.insert(b"left:value", ());
    left.create_path(b"shared:dangling");
    left.create_path(b"left:dangling");

    let mut right = PathMap::<()>::new();
    right.insert(b"", ());
    right.insert(b"shared:value", ());
    right.insert(b"right:value", ());
    right.create_path(b"shared:dangling");
    right.create_path(b"right:dangling");

    let joined = left.join(&right);
    let mut overlay = OverlayZipper::new(left.read_zipper(), right.read_zipper());
    assert_same_observed_pathspace(&joined, &mut overlay);

    let focus = b"shared:";
    let expected_focus = joined.read_zipper_at_path(focus).make_map();
    let mut overlay_focus = OverlayZipper::new(
        left.read_zipper_at_path(focus),
        right.read_zipper_at_path(focus),
    );
    assert_same_observed_pathspace(&expected_focus, &mut overlay_focus);
}

#[test]
fn overlay_try_make_map_materializes_eager_join_observations() {
    let mut left = PathMap::<u8>::new();
    left.set_val_at(b"shared:value", 1);
    left.set_val_at(b"left:value", 2);
    left.create_path(b"shared:dangling");

    let mut right = PathMap::<u8>::new();
    right.set_val_at(b"shared:value", 9);
    right.set_val_at(b"right:value", 3);
    right.create_path(b"right:dangling");

    let expected = left.join(&right);
    let overlay = OverlayZipper::new(left.read_zipper(), right.read_zipper());

    assert!(!overlay.native_subtries());
    let materialized = overlay
        .try_make_map()
        .expect("overlay zipper should materialize by observation");
    let mut materialized_zipper = materialized.read_zipper();
    assert_same_observed_pathspace(&expected, &mut materialized_zipper);

    let focus = b"missing";
    let focused_expected = expected.read_zipper_at_path(focus).make_map();
    let mut focused_overlay = OverlayZipper::new(left.read_zipper(), right.read_zipper());
    focused_overlay.descend_to(focus);
    let focused_materialized = focused_overlay
        .try_make_map()
        .expect("focused overlay zipper should materialize by observation");
    let mut focused_materialized_zipper = focused_materialized.read_zipper();
    assert_same_observed_pathspace(&focused_expected, &mut focused_materialized_zipper);
}

#[test]
fn overlay_prefers_the_first_value_and_unions_children() {
    let mut a = PathMap::<u8>::new();
    a.insert(b"k", 1);
    a.insert(b"x", 5);
    let mut b = PathMap::<u8>::new();
    b.insert(b"k", 2);
    b.insert(b"y", 6);

    let mut overlay = OverlayZipper::new(a.read_zipper(), b.read_zipper());
    assert_eq!(overlay.child_count(), 3);
    overlay.descend_to(b"k");
    assert_eq!(overlay.val(), Some(&1));
    assert!(overlay.ascend_byte());
    overlay.descend_to(b"y");
    assert_eq!(overlay.val(), Some(&6));
}

#[derive(Clone, Copy)]
struct LeftWhereRightMarks;

impl OverlayMapping<u8, ()> for LeftWhereRightMarks {
    type Out = u8;

    fn map_spec(&self, a_val: Option<u8>, b_val: Option<()>) -> Option<u8> {
        match b_val {
            Some(_) => a_val,
            None => None,
        }
    }

    fn map<'a>(&self, a_val: Option<&'a u8>, b_val: Option<&'a ()>) -> Option<&'a u8> {
        match b_val {
            Some(_) => a_val,
            None => None,
        }
    }
}

#[test]
fn overlay_mapping_may_combine_values_of_different_types() {
    let mut a = PathMap::<u8>::new();
    a.insert(b"x", 1);
    a.insert(b"y", 2);
    a.insert(b"z", 3);

    let mut b = PathMap::<()>::new();
    b.insert(b"y", ());
    b.insert(b"z", ());
    b.insert(b"w", ());

    let mut overlay = OverlayZipper::with_mapping(a.read_zipper(), b.read_zipper(), LeftWhereRightMarks);
    assert_eq!(overlay.val_count(), 2);
    overlay.descend_to(b"x");
    assert!(overlay.path_exists());
    assert_eq!(overlay.val(), None);
    overlay.reset();
    overlay.descend_to(b"z");
    assert_eq!(overlay.val(), Some(&3));
    overlay.reset();
    overlay.descend_to(b"w");
    assert!(overlay.path_exists());
    assert_eq!(overlay.val(), None);
}
