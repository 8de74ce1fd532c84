use pathmap::pathmap::PathMap;
use pathmap::trie_ref::{SubtrieSource, TrieRef, TrieRefOwned};
use pathmap::utils::ByteMask;
use pathmap::zipper_moving::{ZipperIteration, ZipperMoving};

#[test]
fn trie_ref_test2() {
    let rs = ["arrow", "bow", "cannon", "roman", "romane", "romanus^", "romulus", "rubens", "ruber", "rubicon", "rubicundus", "rom'i"];
    let pairs: Vec<(&[u8], usize)> = rs.into_iter().enumerate().map(|(i, r)| (r.as_bytes(), i)).collect();
    let btm: PathMap<usize> = PathMap::from_iter(&pairs);

    let trie_ref = btm.trie_ref_at_path(&[]);
    assert_eq!(trie_ref.val(), None);
    assert_eq!(trie_ref.path_exists(), true);
    assert_eq!(trie_ref.child_count(), 4);

    let trie_ref = trie_ref.trie_ref_at_path(&[b'a']);
    assert_eq!(trie_ref.val(), None);
    assert_eq!(trie_ref.path_exists(), true);
    assert_eq!(trie_ref.child_count(), 1);

    let trie_ref = btm.trie_ref_at_path(b"r");
    let mut z = trie_ref.fork_read_zipper();
    assert_eq!(z.val_count(), 9);
    z.descend_to(b"om");
    assert_eq!(z.val_count(), 5);
    assert_eq!(z.path(), b"om");
    assert_eq!(z.origin_path(), b"om");

    let new_map = trie_ref.make_map();
    assert_eq!(new_map.val_count(), 9);
}

#[test]
fn trie_ref_val_at_test() {
    let mut borrowed_map = PathMap::<i32>::new();
    borrowed_map.set_val_at(b"root:a:new_a", 10);
    borrowed_map.set_val_at(b"root:a:nested:deep", 11);
    borrowed_map.set_val_at(b"root:c:new_c", 30);
    let trie_ref = borrowed_map.trie_ref_at_path(b"");
    assert_eq!(trie_ref.val(), None);
    assert_eq!(trie_ref.val_at(b"root:a:new_a"), Some(&10));
    assert_eq!(trie_ref.val_at(b"root:a:nested:deep"), Some(&11));
    assert_eq!(trie_ref.val_at(b"root:b:missing"), None);

    let mut owned_map = PathMap::<i32>::new();
    owned_map.set_val_at(b"root:a:new_a", 10);
    owned_map.set_val_at(b"root:a:nested:deep", 11);
    owned_map.set_val_at(b"root:c:new_c", 30);
    let owned = match TrieRef::from(owned_map) {
        TrieRef::Owned(trie_ref) => trie_ref,
        TrieRef::Borrowed(_) => unreachable!(),
    };
    assert_eq!(owned.val(), None);
    assert_eq!(owned.val_at(b"root:a:new_a"), Some(&10));
    assert_eq!(owned.val_at(b"root:a:nested:deep"), Some(&11));
    assert_eq!(owned.val_at(b"root:b:missing"), None);
}

fn assert_graft_src_at<S: SubtrieSource<i32>>(src_ref: S, src_ref_colon: S) {
    let mut dst = PathMap::<i32>::new();
    dst.set_val_at(b"root:p:old_p", 1);
    dst.set_val_at(b"root:q:old_q", 2);
    dst.set_val_at(b"root:r:old_r", 3);
    dst.set_val_at(b"root:s:old_s", 4);
    dst.set_val_at(b"root:t:old_t", 5);
    dst.set_val_at(b"root:u:old_u", 6);
    dst.set_val_at(b"root:v:old_v", 7);

    dst.write_zipper_at_path(b"root:p").graft_src_at(&src_ref_colon, b"");
    dst.write_zipper_at_path(b"root:q").graft_src_at(&src_ref, b":");
    dst.write_zipper_at_path(b"root:r").graft_src_at(&src_ref, b":a");
    dst.write_zipper_at_path(b"root:s").graft_src_at(&src_ref, b":a:nested");
    dst.write_zipper_at_path(b"root:t").graft_src_at(&src_ref, b":missing");
    dst.write_zipper_at_path(b"root:u").graft_src_at(&src_ref, b":branch:mid");

    // What lies below `root:` is grafted: its paths begin after the colon.
    assert_eq!(dst.get_val_at(b"root:p:old_p"), None);
    assert_eq!(dst.get_val_at(b"root:pa:new_a"), Some(&10));
    assert_eq!(dst.get_val_at(b"root:pa:nested:deep"), Some(&11));
    assert_eq!(dst.get_val_at(b"root:pbranch:mid:leaf"), Some(&40));
    assert_eq!(dst.get_val_at(b"root:pc:new_c"), Some(&30));

    assert_eq!(dst.get_val_at(b"root:q:old_q"), None);
    assert_eq!(dst.get_val_at(b"root:qa:new_a"), Some(&10));
    assert_eq!(dst.get_val_at(b"root:qbranch:mid:leaf"), Some(&40));
    assert_eq!(dst.get_val_at(b"root:qc:new_c"), Some(&30));

    assert_eq!(dst.get_val_at(b"root:r:old_r"), None);
    assert_eq!(dst.get_val_at(b"root:r:new_a"), Some(&10));
    assert_eq!(dst.get_val_at(b"root:r:nested:deep"), Some(&11));
    assert_eq!(dst.get_val_at(b"root:r:branch:mid:leaf"), None);

    assert_eq!(dst.get_val_at(b"root:s:old_s"), None);
    assert_eq!(dst.get_val_at(b"root:s:deep"), Some(&11));
    assert_eq!(dst.get_val_at(b"root:s:new_a"), None);

    assert_eq!(dst.get_val_at(b"root:t"), None);
    assert_eq!(dst.get_val_at(b"root:t:old_t"), None);

    assert_eq!(dst.get_val_at(b"root:u:old_u"), None);
    assert_eq!(dst.get_val_at(b"root:u:leaf"), Some(&40));

    assert_eq!(dst.get_val_at(b"root:v:old_v"), Some(&7));
}

#[test]
fn trie_ref_graft_src_at_places_the_source_subtrie() {
    let mut borrowed_src = PathMap::<i32>::new();
    borrowed_src.set_val_at(b"root:a:new_a", 10);
    borrowed_src.set_val_at(b"root:a:nested:deep", 11);
    borrowed_src.set_val_at(b"root:branch:mid:leaf", 40);
    borrowed_src.set_val_at(b"root:c:new_c", 30);
    assert_graft_src_at(borrowed_src.trie_ref_at_path(b"root"), borrowed_src.trie_ref_at_path(b"root:"));

    let mut owned_src = PathMap::<i32>::new();
    owned_src.set_val_at(b"root:a:new_a", 10);
    owned_src.set_val_at(b"root:a:nested:deep", 11);
    owned_src.set_val_at(b"root:branch:mid:leaf", 40);
    owned_src.set_val_at(b"root:c:new_c", 30);
    let owned: TrieRefOwned<i32> = match TrieRef::from(owned_src) {
        TrieRef::Owned(trie_ref) => trie_ref.trie_ref_at_path(b"root"),
        TrieRef::Borrowed(_) => unreachable!(),
    };
    let owned_colon = owned.trie_ref_at_path(b":");
    assert_graft_src_at(owned, owned_colon);
}

#[test]
fn trie_ref_witness_keeps_the_value() {
    let mut map = PathMap::<u8>::new();
    map.set_val_at(b"k", 3);
    let owned = match TrieRef::from(map) {
        TrieRef::Owned(trie_ref) => trie_ref.trie_ref_at_path(b"k"),
        TrieRef::Borrowed(_) => unreachable!(),
    };
    let w = owned.witness();
    assert_eq!(owned.get_val_with_witness(&w), Some(&3));
    assert_eq!(owned.child_count(), 0);
}

#[test]
fn trie_ref_test1() {
    let keys = ["Hello", "Hell", "Help", "Helsinki"];
    let pairs: Vec<(&[u8], ())> = keys.iter().map(|k| (k.as_bytes(), ())).collect();
    let map: PathMap<()> = PathMap::from_iter(&pairs);

    let trie_ref = map.trie_ref_at_path(b"He");
    assert_eq!(trie_ref.val(), None);
    assert_eq!(trie_ref.path_exists(), true);

    let trie_ref = map.trie_ref_at_path(b"Hel");
    assert_eq!(trie_ref.val(), None);
    assert_eq!(trie_ref.path_exists(), true);

    // Make sure we get a value at a leaf
    let trie_ref = map.trie_ref_at_path(b"Help");
    assert_eq!(trie_ref.val(), Some(&()));
    assert_eq!(trie_ref.path_exists(), true);

    // Make sure we get a value in the middle of a path
    let trie_ref = map.trie_ref_at_path(b"Hell");
    assert_eq!(trie_ref.val(), Some(&()));
    assert_eq!(trie_ref.path_exists(), true);

    // Try a path that doesn't exist
    let trie_ref = map.trie_ref_at_path(b"Hi");
    assert_eq!(trie_ref.val(), None);
    assert_eq!(trie_ref.path_exists(), false);

    // Try a very long path that doesn't exist
    let trie_ref = map.trie_ref_at_path(b"Hello Mr. Washington, my name is John, but sometimes people call me Jack.  I live in Springfield.");
    assert_eq!(trie_ref.val(), None);
    assert_eq!(trie_ref.path_exists(), false);

    // Descend the trie through references
    let trie_ref0 = map.trie_ref_at_path(b"H");
    assert_eq!(trie_ref0.val(), None);
    assert_eq!(trie_ref0.path_exists(), true);
    assert_eq!(trie_ref0.child_count(), 1);
    assert_eq!(trie_ref0.child_mask(), ByteMask::from(b'e'));

    //"Hel"
    let trie_ref1 = trie_ref0.trie_ref_at_path(b"el");
    assert_eq!(trie_ref1.val(), None);
    assert_eq!(trie_ref1.path_exists(), true);
    assert_eq!(trie_ref1.child_count(), 3);

    //"Hello"
    let trie_ref2 = trie_ref1.trie_ref_at_path(b"lo");
    assert_eq!(trie_ref2.val(), Some(&()));
    assert_eq!(trie_ref2.path_exists(), true);
    assert_eq!(trie_ref2.child_count(), 0);

    //"HelloOperator"
    let trie_ref3 = trie_ref2.trie_ref_at_path(b"Operator");
    assert_eq!(trie_ref3.val(), None);
    assert_eq!(trie_ref3.path_exists(), false);
    assert_eq!(trie_ref3.child_count(), 0);

    //"HelloOperator, give me number 9"
    let trie_ref4 = trie_ref3.trie_ref_at_path(b", give me number 9");
    assert_eq!(trie_ref4.val(), None);
    assert_eq!(trie_ref4.path_exists(), false);
    assert_eq!(trie_ref4.child_count(), 0);

    //"Hell"
    let trie_ref2 = trie_ref1.trie_ref_at_path(b"l");
    assert_eq!(trie_ref2.val(), Some(&()));
    assert_eq!(trie_ref2.path_exists(), true);
    assert_eq!(trie_ref2.child_count(), 1);
}
