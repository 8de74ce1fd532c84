use pathmap::counters::Counters;
use pathmap::pathmap::PathMap;

#[test]
fn count_ocupancy_counts_nodes_and_links_by_depth() {
    let mut map: PathMap<u8> = PathMap::new();
    map.insert(b"ab", 1);
    map.insert(b"ac", 2);
    map.insert(b"b", 3);
    let counters = Counters::count_ocupancy(&map);
    assert_eq!(counters.total_nodes_by_depth, vec![1, 2, 2]);
    assert_eq!(counters.total_child_items_by_depth, vec![2, 2, 0]);
    assert_eq!(counters.max_child_items_by_depth, vec![2, 2, 0]);
    assert_eq!(counters.total_nodes(), 5);
    assert_eq!(counters.total_child_items(), 4);
}

#[test]
fn count_ocupancy_of_an_empty_map() {
    let map: PathMap<u8> = PathMap::new();
    let counters = Counters::count_ocupancy(&map);
    assert_eq!(counters.total_nodes(), 1);
    assert_eq!(counters.total_child_items(), 0);
    let fresh = Counters::new();
    assert_eq!(fresh.total_nodes(), 0);
    assert_eq!(fresh.total_child_items(), 0);
}
