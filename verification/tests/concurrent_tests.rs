use rust_map::concurrent::{
    agree_to, deepen, get_alone, get_step, insert_alone, insert_exclusive_step, prune_step,
    remove_alone, remove_exclusive_step, shared_step, slot_of, Descent, Exclusive, Slot,
};
use rand::random;
use rust_map::nearest::sibling_at;
use rust_map::node::{closer, Node};
use rust_map::InsertOrUpdateResult;

fn should_update<T: Ord>(value_1: &T, value_2: &T) -> bool {
    value_2 > value_1
}

fn levels<const N: usize>(node: &Node<N, u64>) -> usize {
    match node {
        Node::Empty => 0,
        Node::Item(_) => 1,
        Node::List(children) => {
            1 + levels(&children.c0)
                .max(levels(&children.c1))
                .max(levels(&children.c2))
                .max(levels(&children.c3))
        }
    }
}

fn pairs<const N: usize>(node: &Node<N, u64>) -> usize {
    match node {
        Node::Empty => 0,
        Node::Item(_) => 1,
        Node::List(children) => {
            pairs(&children.c0) + pairs(&children.c1) + pairs(&children.c2) + pairs(&children.c3)
        }
    }
}

fn get_vec_of_key_values(length: usize) -> Vec<([u8; 32], u64)> {
    let mut to_return = Vec::new();
    for _ in 0..length {
        to_return.push((random::<[u8; 32]>(), random::<u64>()))
    }
    to_return
}

#[test]
fn tests_length_test() {
    let expected = 10000;
    let mut root = Node::<32, u64>::Empty;
    get_vec_of_key_values(expected)
        .iter()
        .for_each(|x| _ = insert_alone(&mut root, x.0, x.1, &|_, _| true));
    assert_eq!(pairs(&root), expected);
}

#[test]
fn tests_remove_test() {
    let expected = 10000;
    let to_insert = get_vec_of_key_values(expected);
    let mut root = Node::<32, u64>::Empty;
    to_insert
        .iter()
        .for_each(|x| _ = insert_alone(&mut root, x.0, x.1, &|_, _| true));
    to_insert
        .iter()
        .for_each(|x| _ = remove_alone(&mut root, x.0, &|_| true));
    assert!(to_insert.iter().all(|x| get_alone(&root, x.0).is_none()));
    assert_eq!(levels(&root), 0);
}

#[test]
fn tests_depth_test() {
    let mut root = Node::<32, u64>::Empty;
    let mut array = [0; 32];
    insert_alone(&mut root, array, 0, &|_, _| true);
    array[array.len() - 1] = 1;
    insert_alone(&mut root, array, 0, &|_, _| true);
    println!("{}", levels(&root));
    assert_eq!(levels(&root), 129);
}

#[test]
fn tests_should_update_test() {
    let mut root = Node::<32, u64>::Empty;
    let (key, mut value) = ([0; 32], 0);
    assert_eq!(
        insert_alone(&mut root, key, value, &should_update),
        InsertOrUpdateResult::Inserted
    );
    value += 1;
    assert_eq!(
        insert_alone(&mut root, key, value, &should_update),
        InsertOrUpdateResult::Updated
    );
    value -= 1;
    assert_eq!(
        insert_alone(&mut root, key, value, &should_update),
        InsertOrUpdateResult::Neither
    );
}

#[test]
fn tests_insert_and_get_test() {
    let mut root = Node::<32, u64>::Empty;
    _ = insert_alone(&mut root, [0; 32], 1, &|_, _| true);
    assert!(get_alone(&root, [0; 32]).is_some_and(|x| x == 1));
}

#[test]
fn tests_get_closest_test() {
    let mut root = Node::<32, u64>::Empty;
    _ = insert_alone(&mut root, [255; 32], 1, &|_, _| true);
    _ = insert_alone(&mut root, [254; 32], 1, &|_, _| true);
    _ = insert_alone(&mut root, [1; 32], 1, &|_, _| true);
    assert!(root
        .get_or_closest_by_key([0; 32], true, true)
        .is_some_and(|x| x.0 == [255; 32]));
}

#[test]
fn bench_insert_or_update_if() {
    let mut root = Node::<32, u64>::Empty;
    let (key, mut value) = ([0; 32], 0);
    let mut true_count = 0;
    let total = 1000000;
    for _ in 0..total {
        if insert_alone(&mut root, key, value, &should_update) != InsertOrUpdateResult::Neither {
            true_count += 1
        };
        value += 1;
    }
    assert_eq!(true_count, total);
}

#[test]
fn steps_insert_remove_and_prune() {
    let mut root = Node::<2, u64>::Empty;
    let keys = [[0u8, 0u8], [0, 1], [0, 2], [64, 0], [255, 255]];
    for (i, key) in keys.iter().enumerate() {
        assert_eq!(
            insert_alone(&mut root, *key, i as u64, &|_, _| true),
            InsertOrUpdateResult::Inserted
        );
    }
    assert_eq!(levels(&root), 9);
    for (i, key) in keys.iter().enumerate() {
        assert_eq!(get_alone(&root, *key), Some(i as u64));
    }
    assert_eq!(get_alone(&root, [0, 3]), None);
    assert_eq!(remove_alone(&mut root, [0, 3], &|_| true), false);
    assert_eq!(remove_alone(&mut root, [0, 1], &|v| *v == 7), false);
    assert_eq!(get_alone(&root, [0, 1]), Some(1));
    for key in keys.iter().skip(1) {
        assert!(remove_alone(&mut root, *key, &|_| true));
        assert_eq!(get_alone(&root, *key), None);
    }
    assert_eq!(levels(&root), 1);
    assert_eq!(get_alone(&root, [0, 0]), Some(0));
    assert!(remove_alone(&mut root, [0, 0], &|_| true));
    assert_eq!(levels(&root), 0);
}

#[test]
fn slot_shows_what_a_node_holds() {
    assert!(matches!(slot_of(&Node::<1, u64>::Empty), Slot::Empty));
    assert!(matches!(
        slot_of(&Node::<1, u64>::Item(Box::new(([7], 9)))),
        Slot::Item([7], 9)
    ));
    assert!(matches!(
        slot_of(&deepen(([1u8], 1u64), ([2u8], 2u64), 0)),
        Slot::List
    ));
    assert_eq!(get_step(&Slot::<1, u64>::Item([7], 9), [7]), Some(9));
    assert_eq!(get_step(&Slot::<1, u64>::Item([7], 9), [8]), None);
    assert_eq!(get_step(&Slot::<1, u64>::Empty, [8]), None);
}

#[test]
fn shared_step_descends_only_at_interior_nodes() {
    let key = [0b1101_0010u8];
    assert_eq!(shared_step(&Slot::<1, u64>::List, key, 0), Descent::Child(3));
    assert_eq!(shared_step(&Slot::<1, u64>::List, key, 1), Descent::Child(1));
    assert_eq!(shared_step(&Slot::<1, u64>::List, key, 3), Descent::Child(2));
    assert_eq!(shared_step(&Slot::<1, u64>::Empty, key, 0), Descent::Upgrade);
    assert_eq!(
        shared_step(&Slot::<1, u64>::Item([1], 5), key, 9),
        Descent::Upgrade
    );
}

#[test]
fn exclusive_step_retries_at_interior_node() {
    assert!(matches!(
        insert_exclusive_step(Slot::<1, u64>::List, [1], 1, &|_, _| true, 0),
        Exclusive::Retry
    ));
    assert!(matches!(
        insert_exclusive_step(Slot::<1, u64>::Item([1], 1), [1], 2, &|_, _| false, 0),
        Exclusive::Keep
    ));
}

#[test]
fn deepen_parts_keys_at_first_difference() {
    let node = deepen(([0b0000_0001u8], 1u64), ([0b0000_0010u8], 2u64), 0);
    assert_eq!(levels(&node), 5);
    let shallow = deepen(([0b0000_0001u8], 1u64), ([0b1000_0000u8], 2u64), 0);
    assert_eq!(levels(&shallow), 2);
    match shallow {
        Node::List(children) => {
            assert!(matches!(children.c0, Node::Item(ref pair) if **pair == ([1u8], 1u64)));
            assert!(matches!(children.c1, Node::Empty));
            assert!(matches!(children.c2, Node::Item(ref pair) if **pair == ([128u8], 2u64)));
            assert!(matches!(children.c3, Node::Empty));
        }
        _ => panic!("two keys make an interior node"),
    }
}

#[test]
fn prune_step_collapses_at_most_one_pair() {
    let empty: [Slot<1, u64>; 4] = [Slot::Empty, Slot::Empty, Slot::Empty, Slot::Empty];
    assert!(matches!(prune_step(&empty), Some(Slot::Empty)));
    let one: [Slot<1, u64>; 4] = [Slot::Empty, Slot::Empty, Slot::Item([9], 4), Slot::Empty];
    assert!(matches!(prune_step(&one), Some(Slot::Item([9], 4))));
    let two: [Slot<1, u64>; 4] = [Slot::Item([1], 1), Slot::Empty, Slot::Item([9], 4), Slot::Empty];
    assert!(prune_step(&two).is_none());
    let deep: [Slot<1, u64>; 4] = [Slot::Empty, Slot::List, Slot::Empty, Slot::Empty];
    assert!(prune_step(&deep).is_none());
    let mixed: [Slot<1, u64>; 4] = [Slot::Item([1], 1), Slot::List, Slot::Empty, Slot::Empty];
    assert!(prune_step(&mixed).is_none());
}

#[test]
fn remove_step_asks_the_rule_only_for_its_key() {
    assert!(remove_exclusive_step(&Slot::<1, u64>::Item([1], 5), [1], &|v| *v == 5));
    assert!(!remove_exclusive_step(&Slot::<1, u64>::Item([1], 5), [1], &|v| *v == 6));
    assert!(!remove_exclusive_step(&Slot::<1, u64>::Item([1], 5), [2], &|_| true));
    assert!(!remove_exclusive_step(&Slot::<1, u64>::Empty, [1], &|_| true));
    assert!(!remove_exclusive_step(&Slot::<1, u64>::List, [1], &|_| true));
}

#[test]
fn agree_to_compares_leading_groups() {
    let a = [0b1010_1010u8, 0b0000_0000];
    let b = [0b1010_1011u8, 0b0000_0000];
    assert!(agree_to(&a, &b, 0));
    assert!(agree_to(&a, &b, 3));
    assert!(!agree_to(&a, &b, 4));
    assert!(!agree_to(&a, &b, 8));
    assert!(agree_to(&a, &a, 8));
}

#[test]
fn sibling_order_is_fixed() {
    let order = |own: usize| [sibling_at(own, 0), sibling_at(own, 1), sibling_at(own, 2)];
    assert_eq!(order(0), [1, 2, 3]);
    assert_eq!(order(1), [0, 2, 3]);
    assert_eq!(order(2), [3, 1, 0]);
    assert_eq!(order(3), [2, 1, 0]);
}

#[test]
fn closer_keeps_first_on_ties() {
    let key = [0u8, 10];
    assert_eq!(closer(key, None, ([0, 50], 1u64)), ([0, 50], 1));
    assert_eq!(closer(key, Some(([0, 12], 1u64)), ([0, 8], 2)), ([0, 12], 1));
    assert_eq!(closer(key, Some(([0, 13], 1u64)), ([0, 8], 2)), ([0, 8], 2));
    assert_eq!(closer(key, Some(([0, 13], 1u64)), ([255, 250], 2)), ([0, 13], 1));
    assert_eq!(closer([0, 1], Some(([0, 13], 1u64)), ([255, 250], 2)), ([255, 250], 2));
}
