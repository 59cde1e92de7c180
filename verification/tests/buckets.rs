use rusty_rolodex::buckets::BucketMap;

fn keys(list: &[&str]) -> Vec<String> {
    list.iter().map(|k| k.to_string()).collect()
}

#[test]
fn built_buckets_hold_the_positions_of_each_key_in_ascending_order() {
    let map = BucketMap::build(&keys(&["a", "b", "a", "c", "b", "a"]));
    assert_eq!(map.lookup("a"), vec![0, 2, 5]);
    assert_eq!(map.lookup("b"), vec![1, 4]);
    assert_eq!(map.lookup("c"), vec![3]);
    assert!(map.lookup("d").is_empty());
    assert!(map.lookup("").is_empty());
    let none = BucketMap::build(&vec![]);
    assert!(none.lookup("a").is_empty());
    assert!(BucketMap::new().lookup("a").is_empty());
}

#[test]
fn inserted_positions_stand_at_the_end_of_their_bucket() {
    let mut map = BucketMap::new();
    map.insert_position("a".to_string(), 4);
    map.insert_position("b".to_string(), 1);
    map.insert_position("a".to_string(), 2);
    map.insert_position("a".to_string(), 4);
    assert_eq!(map.lookup("a"), vec![4, 2, 4]);
    assert_eq!(map.lookup("b"), vec![1]);
}

#[test]
fn removed_positions_leave_their_bucket_and_empty_buckets_go() {
    let mut map = BucketMap::build(&keys(&["a", "b", "a", "c", "b", "a", "d"]));
    map.remove_position("a", 2);
    assert_eq!(map.lookup("a"), vec![0, 5]);
    // A position that is not in the bucket, or a key that has none, changes nothing.
    map.remove_position("a", 1);
    map.remove_position("z", 0);
    assert_eq!(map.lookup("a"), vec![0, 5]);
    assert_eq!(map.lookup("b"), vec![1, 4]);
    // The bucket that empties goes, whether it stands first, in the middle or last.
    map.remove_position("c", 3);
    assert!(map.lookup("c").is_empty());
    assert_eq!(map.lookup("a"), vec![0, 5]);
    assert_eq!(map.lookup("b"), vec![1, 4]);
    assert_eq!(map.lookup("d"), vec![6]);
    map.remove_position("d", 6);
    assert!(map.lookup("d").is_empty());
    map.remove_position("a", 0);
    map.remove_position("a", 5);
    assert!(map.lookup("a").is_empty());
    assert_eq!(map.lookup("b"), vec![1, 4]);
    map.remove_position("b", 1);
    map.remove_position("b", 4);
    assert!(map.lookup("b").is_empty());
    // A key that went can come back.
    map.insert_position("a".to_string(), 7);
    assert_eq!(map.lookup("a"), vec![7]);
}

#[test]
fn moved_position_goes_to_the_end_of_its_new_bucket() {
    let mut map = BucketMap::build(&keys(&["a", "b", "a", "c"]));
    map.move_position(0, "a", "b".to_string());
    assert_eq!(map.lookup("a"), vec![2]);
    assert_eq!(map.lookup("b"), vec![1, 0]);
    map.move_position(3, "c", "new".to_string());
    assert!(map.lookup("c").is_empty());
    assert_eq!(map.lookup("new"), vec![3]);
    map.move_position(2, "a", "a".to_string());
    assert_eq!(map.lookup("a"), vec![2]);
}

#[test]
fn renumbering_drops_the_position_and_lowers_the_later_ones() {
    let mut map = BucketMap::build(&keys(&["a", "b", "a", "c", "b", "a"]));
    map.renumber(3);
    assert_eq!(map.lookup("a"), vec![0, 2, 4]);
    assert_eq!(map.lookup("b"), vec![1, 3]);
    assert!(map.lookup("c").is_empty());
    map.renumber(0);
    assert_eq!(map.lookup("a"), vec![1, 3]);
    assert_eq!(map.lookup("b"), vec![0, 2]);
    // A position that no bucket holds only lowers what stands above it.
    map.renumber(10);
    assert_eq!(map.lookup("a"), vec![1, 3]);
    let mut odd = BucketMap::new();
    odd.insert_position("k".to_string(), 9);
    odd.insert_position("k".to_string(), 3);
    odd.insert_position("k".to_string(), 5);
    odd.renumber(5);
    assert_eq!(odd.lookup("k"), vec![8, 3]);
}
