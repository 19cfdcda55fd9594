use rust_map::non_recursive::ConcurrentBSTMap;

#[test]
fn ordered_map_round_trip() {
    let mut map = ConcurrentBSTMap::<u64, u64>::new();
    assert!(map.is_empty());
    for key in [5u64, 1, 9, 3, 7] {
        assert!(map.insert_or_update(key, key * 10));
    }
    assert_eq!(map.len(), 5);
    assert_eq!(map.get(3), Some(30));
    assert_eq!(map.get(4), None);
    assert!(map.contains_key(9));
    assert!(!map.contains_key(2));
    assert_eq!(map.get_min(), Some((1, 10)));
    assert_eq!(map.get_max(), Some((9, 90)));
    assert!(map.insert_or_update(3, 31));
    assert_eq!(map.get(3), Some(31));
    assert_eq!(map.len(), 5);
}

#[test]
fn ordered_map_conditional_update_and_remove() {
    let mut map = ConcurrentBSTMap::<u32, u32>::new();
    assert!(map.insert_or_update_if(1, 10, |old, new| new > old));
    assert!(!map.insert_or_update_if(1, 5, |old, new| new > old));
    assert_eq!(map.get(1), Some(10));
    assert!(map.insert_or_update_if(1, 11, |old, new| new > old));
    assert_eq!(map.get(1), Some(11));
    map.remove_if(1, |v| *v == 10);
    assert_eq!(map.len(), 1);
    map.remove_if(1, |v| *v == 11);
    assert_eq!(map.len(), 0);
    map.insert_or_update(2, 2);
    map.insert_or_update(4, 4);
    map.remove(3);
    assert_eq!(map.len(), 2);
    map.remove(2);
    assert_eq!(map.get_min(), Some((4, 4)));
    map.clear();
    assert!(map.is_empty());
    assert_eq!(map.get_min(), None);
    assert_eq!(map.get_max(), None);
}
