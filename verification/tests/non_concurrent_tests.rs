use rand::random;
use rust_map::non_concurrent::TrieMap;
use rust_map::InsertOrUpdateResult;
use rust_map::{ALWAYS_UPDATE, NEVER_UPDATE};

fn should_update<T: Ord>(value_1: &T, value_2: &T) -> bool {
    value_2 > value_1
}

fn get_vec_of_key_values(length: usize) -> Vec<([u8; 32], u64)> {
    let mut to_return = Vec::new();
    for _ in 0..length {
        to_return.push((random::<[u8; 32]>(), random::<u64>()))
    }
    to_return
}

#[test]
fn length_test() {
    let expected = 10000;
    let mut map = TrieMap::<32, u64>::new();
    get_vec_of_key_values(expected)
        .iter()
        .for_each(|x| _ = map.insert_or_update(x.0, x.1));
    assert_eq!(map.len(), expected);
}

#[test]
fn get_size() {
    assert_eq!(std::mem::size_of::<TrieMap<32, u64>>(), 16);
}

#[test]
fn depth_test() {
    let mut map = TrieMap::<32, u64>::new();
    let mut array = [0; 32];
    map.insert_or_update(array, 0);
    array[array.len() - 1] = 1;
    map.insert_or_update(array, 0);
    println!("max_depth: {}", map.depth());
    assert_eq!(map.depth(), 129);
}

#[test]
fn remove_test() {
    let expected = 10000;
    let to_insert = get_vec_of_key_values(expected);
    let mut map = TrieMap::<32, u64>::new();
    to_insert
        .iter()
        .for_each(|x| _ = map.insert_or_update(x.0, x.1));
    to_insert.iter().for_each(|x| map.remove(x.0));
    assert!(to_insert.iter().all(|x| map.get(x.0).is_none()));
}

#[test]
fn should_update_test() {
    let mut map = TrieMap::<32, u64>::new();
    let (key, mut value) = ([0; 32], 0);
    assert_eq!(
        map.insert_or_update_if(key, value, &should_update),
        InsertOrUpdateResult::Inserted
    );
    value += 1;
    assert_eq!(
        map.insert_or_update_if(key, value, &should_update),
        InsertOrUpdateResult::Updated
    );
    value -= 1;
    assert_eq!(
        map.insert_or_update_if(key, value, &should_update),
        InsertOrUpdateResult::Neither
    );
}

#[test]
fn insert_and_get_test() {
    let mut map = TrieMap::<32, u64>::new();
    _ = map.insert_or_update([0; 32], 1);
    assert!(map.get([0; 32]).is_some_and(|x| x == 1));
}

#[test]
fn get_closest_test() {
    let mut map = TrieMap::<32, u64>::new();
    _ = map.insert_or_update([255; 32], 1);
    _ = map.insert_or_update([254; 32], 1);
    _ = map.insert_or_update([1; 32], 1);
    assert!(map
        .get_or_closest_by_key([0; 32], true, true)
        .is_some_and(|x| x.0 == [255; 32]));
}

#[test]
fn get_closest_by_key_leading_zeroes_test() {
    let mut map = TrieMap::<32, u64>::new();
    let mut key = [255; 32];
    key[0] = 0;
    _ = map.insert_or_update(key, 1);
    key = [0; 32];
    key[0] = 1;
    key[key.len() - 1] = u8::MAX;
    _ = map.insert_or_update(key, 1);
    assert!(map
        .get_or_closest_by_key_leading_zeroes([1; 32], true)
        .is_some_and(|x| x.0 == key));
}

#[test]
fn bench() {
    let mut map = TrieMap::<32, u64>::new();
    let mut key = [0; 32];
    let mut true_count = 0;
    let total = 1000000;
    for _ in 0..total {
        if map.insert_or_update(key, 0) != InsertOrUpdateResult::Neither {
            true_count += 1
        };
        for i in (0..key.len()).rev() {
            if key[i] == u8::MAX {
                key[i] = 0
            } else {
                key[i] += 1;
                break;
            }
        }
    }
    assert_eq!(true_count, total);
    assert_eq!(map.len(), total);
    key = [0; 32];
    for _ in 0..total {
        map.remove(key);
        for i in (0..key.len()).rev() {
            if key[i] == u8::MAX {
                key[i] = 0
            } else {
                key[i] += 1;
                break;
            }
        }
    }
    assert_eq!(map.len(), 0);
}

#[test]
fn always_update_replaces_with_same_pair() {
    let mut map = TrieMap::<4, u64>::new();
    let key = [1, 2, 3, 4];
    assert_eq!(
        map.insert_or_update_if(key, 7, &ALWAYS_UPDATE),
        InsertOrUpdateResult::Inserted
    );
    assert_eq!(
        map.insert_or_update_if(key, 7, &ALWAYS_UPDATE),
        InsertOrUpdateResult::Updated
    );
    assert_eq!(map.get(key), Some(7));
    assert_eq!(map.len(), 1);
}

#[test]
fn never_update_keeps_first_value() {
    let mut map = TrieMap::<4, u64>::new();
    let key = [9, 9, 9, 9];
    assert_eq!(
        map.insert_or_update_if(key, 1, &NEVER_UPDATE),
        InsertOrUpdateResult::Inserted
    );
    assert_eq!(
        map.insert_or_update_if(key, 2, &NEVER_UPDATE),
        InsertOrUpdateResult::Neither
    );
    assert_eq!(map.get(key), Some(1));
}

#[test]
fn insert_then_get_returns_latest_value() {
    let mut map = TrieMap::<2, u32>::new();
    for round in 0..3u32 {
        for high in 0..=255u8 {
            map.insert_or_update([high, high.wrapping_mul(7)], round * 1000 + high as u32);
        }
    }
    for high in 0..=255u8 {
        assert_eq!(
            map.get([high, high.wrapping_mul(7)]),
            Some(2000 + high as u32)
        );
    }
    assert_eq!(map.len(), 256);
    assert_eq!(map.get([0, 1]), None);
}

#[test]
fn remove_takes_one_pair_and_prunes() {
    let mut map = TrieMap::<4, u64>::new();
    let keys = [
        [0, 0, 0, 0],
        [0, 0, 0, 1],
        [0, 0, 0, 2],
        [0, 0, 1, 0],
        [128, 0, 0, 0],
        [255, 255, 255, 255],
    ];
    for (i, key) in keys.iter().enumerate() {
        map.insert_or_update(*key, i as u64);
    }
    assert_eq!(map.len(), 6);
    assert_eq!(map.depth(), 17);
    let mut left = 6;
    for key in keys.iter().skip(1) {
        map.remove(*key);
        left -= 1;
        assert_eq!(map.get(*key), None);
        assert_eq!(map.len(), left);
    }
    assert_eq!(map.depth(), 1);
    assert_eq!(map.get(keys[0]), Some(0));
    map.remove(keys[0]);
    assert_eq!(map.depth(), 0);
    assert!(map.is_empty());
}

#[test]
fn remove_absent_key_changes_nothing() {
    let mut map = TrieMap::<4, u64>::new();
    map.insert_or_update([1, 0, 0, 0], 5);
    assert!(!map.remove_if([2, 0, 0, 0], &|_| true));
    assert!(!map.remove_if([1, 0, 0, 0], &|v| *v == 6));
    assert_eq!(map.len(), 1);
    assert!(map.remove_if([1, 0, 0, 0], &|v| *v == 5));
    assert_eq!(map.len(), 0);
    assert_eq!(map.get_min(), None);
    assert_eq!(map.get_max(), None);
    assert_eq!(map.get_or_closest_by_key([1, 0, 0, 0], true, true), None);
}

#[test]
fn min_and_max_bound_every_key() {
    let mut map = TrieMap::<4, u64>::new();
    let pairs = get_vec_of_key_values(500);
    for (k, v) in pairs.iter() {
        map.insert_or_update([k[0], k[1], k[2], k[3]], *v);
    }
    let min = map.get_min().unwrap().0;
    let max = map.get_max().unwrap().0;
    for (k, _) in pairs.iter() {
        let key = [k[0], k[1], k[2], k[3]];
        assert!(min <= key && key <= max);
    }
}

#[test]
fn four_byte_scenario() {
    let mut map = TrieMap::<4, u64>::new();
    map.insert_or_update([0, 0, 0, 0], 1);
    map.insert_or_update([0, 1, 0, 0], 2);
    map.insert_or_update([255, 255, 255, 255], 3);
    assert_eq!(map.get_min(), Some(([0, 0, 0, 0], 1)));
    assert_eq!(map.get_max(), Some(([255, 255, 255, 255], 3)));
    assert_eq!(
        map.get_or_closest_by_key([0, 0, 0, 1], true, false),
        Some(([0, 0, 0, 0], 1))
    );
    assert_eq!(
        map.get_or_closest_by_key([0, 0, 0, 0], false, false),
        Some(([0, 1, 0, 0], 2))
    );
    assert_eq!(
        map.get_or_closest_by_key([0, 0, 0, 0], false, true),
        Some(([255, 255, 255, 255], 3))
    );
    assert_eq!(
        map.get_or_closest_by_key([0, 0, 0, 0], true, true),
        Some(([0, 0, 0, 0], 1))
    );
}

fn value_of(key: [u8; 2]) -> i64 {
    (key[0] as i64) * 256 + key[1] as i64
}

fn circle(a: [u8; 2], b: [u8; 2]) -> i64 {
    let apart = (value_of(a) - value_of(b)).abs();
    apart.min(65536 - apart)
}

#[test]
fn wrap_around_search_finds_nearest_on_circle() {
    for round in 0..200 {
        let mut map = TrieMap::<2, u64>::new();
        let mut keys = Vec::new();
        let count = 1 + (round % 7);
        for _ in 0..count {
            let key: [u8; 2] = random();
            map.insert_or_update(key, value_of(key) as u64);
            keys.push(key);
        }
        let probe: [u8; 2] = if round % 3 == 0 { keys[0] } else { random() };
        for with_key in [false, true] {
            let expected = keys
                .iter()
                .filter(|k| with_key || **k != probe)
                .map(|k| circle(probe, *k))
                .min();
            let found = map.get_or_closest_by_key(probe, with_key, true);
            assert_eq!(found.map(|x| circle(probe, x.0)), expected);
            if let Some((k, v)) = found {
                assert_eq!(v, value_of(k) as u64);
            }
        }
    }
}

#[test]
fn search_without_wrap_with_keys_on_both_sides() {
    let mut map = TrieMap::<2, u64>::new();
    map.insert_or_update([0, 10], 1);
    map.insert_or_update([0, 20], 2);
    map.insert_or_update([0, 40], 3);
    assert_eq!(
        map.get_or_closest_by_key([0, 24], false, false),
        Some(([0, 20], 2))
    );
    assert_eq!(
        map.get_or_closest_by_key([0, 31], false, false),
        Some(([0, 40], 3))
    );
    assert_eq!(
        map.get_or_closest_by_key([0, 20], false, false),
        Some(([0, 10], 1))
    );
    assert_eq!(
        map.get_or_closest_by_key([0, 20], true, false),
        Some(([0, 20], 2))
    );
}

#[test]
fn search_without_wrap_misses_far_side() {
    let mut map = TrieMap::<1, u64>::new();
    map.insert_or_update([3], 3);
    map.insert_or_update([4], 4);
    map.insert_or_update([255], 2);
    assert_eq!(map.get_or_closest_by_key([0], false, false), Some(([3], 3)));
    assert_eq!(map.get_or_closest_by_key([0], false, true), Some(([255], 2)));
    assert_eq!(map.get_or_closest_by_key([3], true, true), Some(([3], 3)));
    assert_eq!(map.get_or_closest_by_key([3], false, true), Some(([4], 4)));
}

#[test]
fn search_prefers_first_found_on_ties() {
    let mut map = TrieMap::<1, u64>::new();
    map.insert_or_update([1], 1);
    map.insert_or_update([255], 2);
    assert_eq!(map.get_or_closest_by_key([0], false, false), Some(([1], 1)));
    assert_eq!(map.get_or_closest_by_key([0], false, true), Some(([1], 1)));
}

#[test]
fn leading_zeroes_prefers_longest_shared_prefix() {
    let mut map = TrieMap::<1, u64>::new();
    map.insert_or_update([0b0000_0000], 1);
    map.insert_or_update([0b0100_0000], 2);
    map.insert_or_update([0b0101_0000], 3);
    map.insert_or_update([0b1100_0000], 4);
    assert_eq!(
        map.get_or_closest_by_key_leading_zeroes([0b0101_0101], true),
        Some(([0b0101_0000], 3))
    );
    assert_eq!(
        map.get_or_closest_by_key_leading_zeroes([0b0101_0000], false),
        Some(([0b0100_0000], 2))
    );
    assert_eq!(
        map.get_or_closest_by_key_leading_zeroes([0b1000_0000], true),
        Some(([0b1100_0000], 4))
    );
    assert_eq!(
        map.get_or_closest_by_key_leading_zeroes([0b0011_0000], true),
        Some(([0b0000_0000], 1))
    );
    map.clear();
    assert_eq!(
        map.get_or_closest_by_key_leading_zeroes([0b0011_0000], true),
        None
    );
}

#[test]
fn clear_empties_the_map() {
    let mut map = TrieMap::<4, u64>::new();
    map.insert_or_update([1, 2, 3, 4], 1);
    map.insert_or_update([1, 2, 3, 5], 2);
    assert!(!map.is_empty());
    map.clear();
    assert!(map.is_empty());
    assert_eq!(map.len(), 0);
    assert_eq!(map.depth(), 0);
    assert_eq!(map.get([1, 2, 3, 4]), None);
}

#[test]
fn search_without_wrap_is_nearest_with_keys_on_both_sides() {
    for round in 0..300 {
        let mut map = TrieMap::<2, u64>::new();
        let mut keys = Vec::new();
        let count = 2 + (round % 9);
        for _ in 0..count {
            let key: [u8; 2] = random();
            map.insert_or_update(key, value_of(key) as u64);
            keys.push(key);
        }
        let probe: [u8; 2] = if round % 4 == 0 { keys[0] } else { random() };
        for with_key in [false, true] {
            let allowed: Vec<[u8; 2]> = keys
                .iter()
                .filter(|k| with_key || **k != probe)
                .copied()
                .collect();
            let on_both_sides = allowed.iter().any(|k| *k < probe)
                && allowed.iter().any(|k| *k > probe);
            let holds_probe = allowed.contains(&probe);
            if on_both_sides || holds_probe {
                let expected = allowed.iter().map(|k| circle(probe, *k)).min();
                let found = map.get_or_closest_by_key(probe, with_key, false);
                assert_eq!(found.map(|x| circle(probe, x.0)), expected);
            }
        }
    }
}

#[test]
fn memory_size_counts_nodes_and_pairs() {
    let node = std::mem::size_of::<TrieMap<32, u64>>();
    let pair = 32 + 8;
    let mut map = TrieMap::<32, u64>::new();
    assert_eq!(map.get_memory_size(), node);
    map.insert_or_update([0; 32], 1);
    assert_eq!(map.get_memory_size(), node + pair);
    map.insert_or_update([255; 32], 2);
    assert_eq!(map.get_memory_size(), 5 * node + 2 * pair);
    let mut near = [0; 32];
    near[0] = 1;
    map.insert_or_update(near, 3);
    assert_eq!(map.get_memory_size(), 17 * node + 3 * pair);
    map.clear();
    assert_eq!(map.get_memory_size(), node);
}
