use pathmap::pathmap::PathMap;

#[test]
fn test_btm_merkleize() {
    let paths: &[&[u8]] = &[
        b"axx", b"ayy", b"bxx", b"byy", b"cxx", b"cyy", b"ddxx", b"ddyy",
    ];
    let paths: Vec<(&[u8], ())> = paths.iter().map(|&path| (path, ())).collect();
    let mut btm = PathMap::from_iter(&paths);
    let result = btm.merkleize();
    println!("merkleize result: {result:?}");
}

#[test]
fn merkleize_counts_repeated_subtries_and_keeps_the_map() {
    let paths: Vec<(&[u8], u8)> = vec![(b"ax", 1), (b"bx", 1), (b"cy", 2)];
    let mut map = PathMap::from_iter(&paths);
    let result = map.merkleize();
    assert_eq!(result.reused, 2);
    assert_eq!(result.cloned, 2);
    assert_eq!(result.replaced, 2);
    assert_eq!(map.get_val_at(b"ax"), Some(&1));
    assert_eq!(map.get_val_at(b"cy"), Some(&2));
    assert_eq!(map.val_count(), 3);

    let mut other = PathMap::from_iter(&paths);
    assert_eq!(other.merkleize().hash, result.hash);
}

#[test]
fn merkleize_counts_a_repeated_leaf_and_gives_a_64_bit_hash() {
    let mut map: PathMap<()> = PathMap::new();
    map.insert(b"ab", ());
    map.insert(b"b", ());
    let r = map.merkleize();
    assert_eq!(r.reused, 1);
    assert_eq!(r.cloned, 1);
    assert_eq!(r.replaced, 1);
    assert!(r.hash <= u64::MAX as u128);
}

#[test]
fn merkleize_of_distinct_subtries_replaces_nothing() {
    let paths: Vec<(&[u8], u8)> = vec![(b"a", 1), (b"b", 2), (b"cd", 3)];
    let mut map = PathMap::from_iter(&paths);
    let r = map.merkleize();
    assert_eq!(r.reused, 0);
    assert_eq!(r.cloned, 0);
    assert_eq!(r.replaced, 0);
    assert_eq!(map.val_count(), 3);
}
