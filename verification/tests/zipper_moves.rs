use pathmap::pathmap::PathMap;
use pathmap::zipper_moving::{ZipperIteration, ZipperMoving};

fn map_of(paths: &[(&[u8], u64)]) -> PathMap<u64> {
    PathMap::from_iter(paths)
}

#[test]
fn descend_until_stops_at_branches_and_values() {
    let map = map_of(&[(b"abcd", 1), (b"abce", 2)]);
    let mut z = map.read_zipper();
    assert!(z.descend_until());
    assert_eq!(z.path(), b"abc");
    assert!(!z.descend_until());
    assert_eq!(z.path(), b"abc");

    let map = map_of(&[(b"ab", 1), (b"abcd", 2)]);
    let mut z = map.read_zipper();
    assert!(z.descend_until());
    assert_eq!(z.path(), b"ab");
    assert!(z.descend_until());
    assert_eq!(z.path(), b"abcd");
    assert!(!z.descend_until());
}

#[test]
fn descend_to_val_stops_at_values_and_missing_bytes() {
    let map = map_of(&[(b"ab", 1), (b"abcd", 2)]);
    let mut z = map.read_zipper();
    assert_eq!(z.descend_to_val(b"abcdz"), 2);
    assert_eq!(z.path(), b"ab");
    assert_eq!(z.descend_to_val(b"cdz"), 2);
    assert_eq!(z.path(), b"abcd");
    let mut z = map.read_zipper();
    assert_eq!(z.descend_to_val(b"axy"), 1);
    assert_eq!(z.path(), b"a");
    let mut z = map.read_zipper();
    assert_eq!(z.descend_to_val(b""), 0);
    assert_eq!(z.path(), b"");
}

#[test]
fn sibling_moves_follow_byte_order() {
    let map = map_of(&[(b"a", 1), (b"c", 2), (b"e", 3)]);
    let mut z = map.read_zipper();
    assert!(!z.to_next_sibling_byte());
    assert!(!z.to_prev_sibling_byte());
    assert!(z.descend_first_byte());
    assert_eq!(z.path(), b"a");
    assert!(!z.to_prev_sibling_byte());
    assert!(z.to_next_sibling_byte());
    assert_eq!(z.path(), b"c");
    assert!(z.to_next_sibling_byte());
    assert_eq!(z.path(), b"e");
    assert!(!z.to_next_sibling_byte());
    assert_eq!(z.path(), b"e");
    assert!(z.to_prev_sibling_byte());
    assert_eq!(z.path(), b"c");
    assert!(z.descend_first_byte() == false);
    assert_eq!(z.path(), b"c");
}

#[test]
fn to_next_val_visits_every_value_in_order() {
    let map = map_of(&[(b"b", 1), (b"", 0), (b"ab", 2), (b"a", 3), (b"ba", 4)]);
    let mut z = map.read_zipper();
    let mut seen = vec![];
    while z.to_next_val() {
        seen.push((z.path().to_vec(), *z.val().unwrap()));
    }
    assert_eq!(
        seen,
        vec![(b"a".to_vec(), 3), (b"ab".to_vec(), 2), (b"b".to_vec(), 1), (b"ba".to_vec(), 4)]
    );
    assert_eq!(z.path(), b"");
}

#[test]
fn to_next_step_visits_every_path_in_order() {
    let map = map_of(&[(b"ab", 1), (b"b", 2)]);
    let mut z = map.read_zipper();
    let mut seen = vec![];
    while z.to_next_step() {
        seen.push(z.path().to_vec());
    }
    assert_eq!(seen, vec![b"a".to_vec(), b"ab".to_vec(), b"b".to_vec()]);
}
