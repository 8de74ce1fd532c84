use pathmap::overlay_zipper::OverlayZipper;
use pathmap::pathmap::PathMap;
use pathmap::prefix_zipper::PrefixZipper;
use pathmap::utils::ByteMask;
use pathmap::zipper_moving::{ZipperIteration, ZipperMoving, ZipperSubtries};

fn collect_existing_paths<Z>(zipper: &mut Z, paths: &mut Vec<Vec<u8>>)
where
    Z: ZipperMoving,
{
    if zipper.path_exists() {
        paths.push(zipper.path().to_vec());
    }

    let child_count = zipper.child_count();
    for child_idx in 0..child_count {
        assert!(zipper.descend_indexed_byte(child_idx));
        collect_existing_paths(zipper, paths);
        assert!(zipper.ascend_byte());
    }
}

fn existing_paths<V: Copy>(map: &PathMap<V>) -> Vec<Vec<u8>> {
    let mut zipper = map.read_zipper();
    let mut paths = Vec::new();
    collect_existing_paths(&mut zipper, &mut paths);
    paths.sort();
    paths
}

fn assert_same_pathspace<V>(expected: &PathMap<V>, actual: &PathMap<V>)
where
    V: Copy + Eq + core::fmt::Debug,
{
    let expected_paths = existing_paths(expected);
    let actual_paths = existing_paths(actual);

    assert_eq!(actual_paths, expected_paths, "path-existence sets differ");

    for path in expected_paths {
        assert_eq!(
            actual.get_val_at(&path),
            expected.get_val_at(&path),
            "value differs at path {path:?}"
        );
    }
}

#[test]
fn dpa_prefix_zipper_materializes_like_insert_prefix_and_derivative_recovers_source() {
    let prefix = b"virtual:";
    let mut source = PathMap::<bool>::new();
    source.set_val_at(b"alpha", true);
    source.set_val_at(b"branch:leaf", false);
    source.create_path(b"dangling:path");

    let materialized = PrefixZipper::new(prefix, source.read_zipper()).make_map();
    let mut inserted = source.clone_map();
    {
        let mut wz = inserted.write_zipper();
        assert!(wz.insert_prefix(prefix));
    }
    assert_same_pathspace(&inserted, &materialized);

    let mut rooted_source = source.clone_map();
    rooted_source.set_val_at(b"", false);
    let mut prefixed = PrefixZipper::new(prefix, rooted_source.read_zipper());
    assert_eq!(prefixed.descend_to_existing(prefix), prefix.len());
    assert!(prefixed.path_exists());
    assert_same_pathspace(&rooted_source, &prefixed.make_map());
}

#[test]
fn prefix_try_make_map_materializes_virtual_source() {
    let prefix = b"prefixed:";
    let mut left = PathMap::<bool>::new();
    left.set_val_at(b"shared", true);
    left.set_val_at(b"left", false);
    left.create_path(b"left:dangling");

    let mut right = PathMap::<bool>::new();
    right.set_val_at(b"shared", false);
    right.set_val_at(b"right", true);
    right.create_path(b"right:dangling");

    let joined = left.join(&right);
    let mut expected = joined.clone_map();
    {
        let mut wz = expected.write_zipper();
        assert!(wz.insert_prefix(prefix));
    }

    let overlay = OverlayZipper::new(left.read_zipper(), right.read_zipper());
    let prefixed = PrefixZipper::new(prefix.as_slice(), overlay);
    assert!(!prefixed.native_subtries());
    let materialized = prefixed
        .try_make_map()
        .expect("prefix over materializable virtual source should materialize");
    assert_same_pathspace(&expected, &materialized);

    let overlay = OverlayZipper::new(left.read_zipper(), right.read_zipper());
    let mut focused = PrefixZipper::new(prefix.as_slice(), overlay);
    assert_eq!(focused.descend_to_existing(prefix), prefix.len());
    let focused_materialized = focused
        .try_make_map()
        .expect("focused prefix over materializable virtual source should materialize");
    assert_same_pathspace(&joined, &focused_materialized);
}

#[test]
fn prefix_materialization_is_empty_after_prefix_divergence() {
    let mut source = PathMap::<bool>::new();
    source.set_val_at(b"alpha", true);
    source.create_path(b"dangling");

    let mut prefixed = PrefixZipper::new(b"abc", source.read_zipper());
    prefixed.descend_to(b"abd");
    assert!(!prefixed.path_exists());

    let expected = PathMap::<bool>::new();
    assert_same_pathspace(&expected, &prefixed.make_map());
    let try_materialized = prefixed
        .try_make_map()
        .expect("diverged prefix residual should still materialize as empty");
    assert_same_pathspace(&expected, &try_materialized);
}

#[test]
fn prefix_iteration_jumps_virtual_prefix_and_visits_source_values() {
    let prefix = b"prefix/";
    let mut source = PathMap::<u64>::new();
    source.set_val_at(b"", 0);
    source.set_val_at(b"alpha", 1);
    source.set_val_at(b"beta/gamma", 2);

    let mut prefixed = PrefixZipper::new(prefix, source.read_zipper());
    let mut visited = Vec::new();
    while let Some(&value) = prefixed.to_next_get_val() {
        visited.push((prefixed.path().to_vec(), value));
    }

    assert_eq!(
        visited,
        vec![
            (b"prefix/".to_vec(), 0),
            (b"prefix/alpha".to_vec(), 1),
            (b"prefix/beta/gamma".to_vec(), 2),
        ]
    );
    assert!(prefixed.at_root());
}

#[test]
fn prefix_k_path_iteration_spans_virtual_prefix_and_source() {
    let prefix = b"pre/";
    let mut source = PathMap::<u64>::new();
    source.set_val_at(b"ab", 1);
    source.set_val_at(b"ac", 2);

    let mut prefixed = PrefixZipper::new(prefix, source.read_zipper());
    assert!(prefixed.descend_first_k_path(6));
    assert_eq!(prefixed.path(), b"pre/ab");
    assert!(prefixed.to_next_k_path(6));
    assert_eq!(prefixed.path(), b"pre/ac");
    assert!(!prefixed.to_next_k_path(6));
    assert!(prefixed.at_root());
}

#[test]
fn prefix_path_below_focus_tracks_the_prefix() {
    let mut source = PathMap::<u64>::new();
    source.set_val_at(b"x", 1);
    let mut prefixed = PrefixZipper::new(b"ab", source.read_zipper());
    assert_eq!(prefixed.prefix_path_below_focus(), Some(&b"ab"[..]));
    prefixed.descend_to(b"a");
    assert_eq!(prefixed.prefix_path_below_focus(), Some(&b"b"[..]));
    prefixed.descend_to(b"bx");
    assert_eq!(prefixed.prefix_path_below_focus(), Some(&b""[..]));
    assert_eq!(prefixed.val(), Some(&1));
    prefixed.reset();
    prefixed.descend_to(b"z");
    assert_eq!(prefixed.prefix_path_below_focus(), None);
}

const PATHS1: &[(&[u8], u64)] = &[
    (b"0000", 0),
    (b"00000", 1),
    (b"00011", 2),
    (b"11111", 3),
    (b"11222", 4),
];
const PATHS2: &[(&[u8], u64)] = &[(b"000", 0), (b"00000", 0), (b"00111", 1)];

#[test]
fn test_prefix_zipper1() {
    let map = PathMap::from_iter(PATHS1);
    let mut rz = PrefixZipper::new(b"prefix", map.read_zipper());
    rz.set_root_prefix_path(b"pre").unwrap();
    assert_eq!(rz.descend_to_existing(b"fix00000"), 8);
    assert_eq!(rz.ascend_until(), true);
    assert_eq!(rz.path(), b"fix0000");
    assert_eq!(rz.origin_path(), b"prefix0000");
    assert_eq!(rz.descend_to_existing(b"0"), 1);
    assert_eq!(rz.ascend_until_branch(), true);
    assert_eq!(rz.path(), b"fix000");
    assert_eq!(rz.ascend_until_branch(), true);
    assert_eq!(rz.path(), b"fix");
    assert_eq!(rz.ascend_until_branch(), true);
    assert_eq!(rz.path(), b"");
    assert_eq!(rz.origin_path(), b"pre");
    assert_eq!(rz.ascend_until_branch(), false);
}

#[test]
fn test_prefix_zipper2() {
    let map = PathMap::from_iter(PATHS2);
    let mut rz = PrefixZipper::new(b"prefix", map.read_zipper());
    rz.set_root_prefix_path(b"pre").unwrap();
    assert_eq!(rz.descend_to_existing(b"fix00000"), 8);
    assert_eq!(rz.ascend_until(), true);
    assert_eq!(rz.path(), b"fix000");
    assert_eq!(rz.origin_path(), b"prefix000");
    assert_eq!(rz.ascend_until(), true);
    assert_eq!(rz.path(), b"fix00");
    assert_eq!(rz.ascend_until(), true);
    assert_eq!(rz.path(), b"");
    assert_eq!(rz.ascend_until(), false);
    assert_eq!(rz.descend_to_existing(b"fix00000"), 8);
    assert_eq!(rz.ascend_until_branch(), true);
    assert_eq!(rz.path(), b"fix00");
    assert_eq!(rz.ascend_until_branch(), true);
    assert_eq!(rz.path(), b"");
    assert_eq!(rz.origin_path(), b"pre");
    assert_eq!(rz.ascend_until_branch(), false);
}

#[test]
fn prefix_zipper_root_prefix_path_must_begin_the_prefix() {
    let map = PathMap::from_iter(PATHS2);
    let mut rz = PrefixZipper::new(b"prefix", map.read_zipper());
    assert!(rz.set_root_prefix_path(b"pra").is_err());
    assert_eq!(rz.root_prefix_path(), b"");
    rz.set_root_prefix_path(b"pre").unwrap();
    assert_eq!(rz.root_prefix_path(), b"pre");
    rz.set_root_prefix_path(b"prefix").unwrap();
    assert_eq!(rz.root_prefix_path(), b"prefix");
    assert_eq!(rz.descend_to_existing(b"000"), 3);
    assert_eq!(rz.origin_path(), b"prefix000");
    let rz = PrefixZipper::new(b"prefix", map.read_zipper());
    assert!(rz.with_origin(b"x").is_err());
}

#[test]
fn prefix_bytes_stay_children_over_a_missing_source_root() {
    let mut map = PathMap::<u8>::new();
    map.set_val_at(b"ab", 1);
    let source = map.read_zipper_at_path(b"zz");
    assert!(!source.path_exists());

    let mut rz = PrefixZipper::new(b"p", source);
    assert!(rz.path_exists());
    assert_eq!(rz.child_count(), 1);
    assert_eq!(rz.child_mask(), ByteMask::from(b'p'));
    assert_eq!(rz.val(), None);
    rz.descend_to_byte(b'p');
    assert!(rz.path_exists());
    assert_eq!(rz.child_count(), 0);
    assert_eq!(rz.prefix_path_below_focus(), Some(&b""[..]));
}

#[test]
fn prefix_zipper_moves_keep_the_prefix() {
    let mut map = PathMap::<u8>::new();
    map.set_val_at(b"xy", 1);
    let mut rz = PrefixZipper::new(b"ab", map.read_zipper());
    rz.descend_to(b"a");
    let below = rz.prefix_path_below_focus().map(|s| s.to_vec());
    rz.descend_to(b"bxy");
    assert_eq!(rz.val(), Some(&1));
    assert!(rz.ascend(3));
    assert_eq!(rz.path(), b"a");
    assert_eq!(rz.prefix_path_below_focus().map(|s| s.to_vec()), below);
    assert!(!rz.ascend(2));
    assert_eq!(rz.path(), b"");
}
