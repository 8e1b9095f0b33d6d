use training::btree::Entry;
use training::btree::NaiveBTree;

fn letters() -> Vec<(i32, &'static str)> {
    vec![
        (1, "a"),
        (2, "b"),
        (3, "c"),
        (4, "d"),
        (5, "e"),
        (6, "f"),
        (7, "g"),
        (8, "h"),
        (9, "i"),
        (10, "j"),
    ]
}

fn keys_of(map: &NaiveBTree<i32, &'static str>) -> Vec<i32> {
    map.entries().iter().map(|e: &&Entry<i32, &'static str>| e.key).collect()
}

#[test]
fn test_basic() {
    let mut map = NaiveBTree::default();

    let kvs = vec![
        (1, "a"),
        (2, "b"),
        (3, "c"),
        (4, "d"),
        (5, "e"),
        (6, "f"),
        (7, "g"),
        (8, "h"),
        (9, "i"),
        (10, "j"),
    ];

    for (key, value) in &kvs {
        map.insert(*key, *value);
    }

    for (key, value) in &kvs {
        assert_eq!(map.get(key), Some(value));
    }

    assert!(map.get(&11).is_none());

    map.remove_2(&10);

    println!("{:?}", map);
}

#[test]
fn ten_keys_in_order() {
    let mut map = NaiveBTree::new(2);
    assert_eq!(map.order(), 2);
    assert!(map.is_empty());
    assert_eq!(map.height(), 1);
    for (i, (key, value)) in letters().into_iter().enumerate() {
        map.insert(key, value);
        assert_eq!(map.len(), i + 1);
        if i >= 3 {
            assert!(map.height() > 1);
        }
    }
    assert!(map.height() > 1);
    assert_eq!(map.height(), 3);
    assert_eq!(map.get(&5), Some(&"e"));
    assert_eq!(map.remove(&10), Some("j"));
    assert_eq!(map.get(&10), None);
    assert_eq!(map.get(&9), Some(&"i"));
    assert_eq!(map.len(), 9);
}

#[test]
fn root_splits_at_the_fourth_insert() {
    let mut map = NaiveBTree::new(2);
    map.insert(1, 10);
    map.insert(2, 20);
    map.insert(3, 30);
    assert_eq!(map.height(), 1);
    map.insert(4, 40);
    assert_eq!(map.height(), 2);
    assert_eq!(keys_sorted(&map), vec![1, 2, 3, 4]);
}

fn keys_sorted(map: &NaiveBTree<i32, i32>) -> Vec<i32> {
    map.entries().iter().map(|e: &&Entry<i32, i32>| e.key).collect()
}

fn remove_all(order: Vec<i32>) {
    let mut map = NaiveBTree::new(2);
    for (key, value) in letters() {
        map.insert(key, value);
    }
    let mut left = 10;
    for key in order {
        let expected = letters()[(key - 1) as usize].1;
        assert_eq!(map.remove(&key), Some(expected));
        left -= 1;
        assert_eq!(map.len(), left);
        assert_eq!(map.get(&key), None);
        let keys = keys_of(&map);
        assert_eq!(keys.len(), left);
        assert!(keys.windows(2).all(|w| w[0] < w[1]));
    }
    assert_eq!(map.len(), 0);
    assert!(map.is_empty());
    assert_eq!(map.height(), 1);
    assert!(map.entries().is_empty());
}

#[test]
fn remove_all_ascending() {
    remove_all(vec![1, 2, 3, 4, 5, 6, 7, 8, 9, 10]);
}

#[test]
fn remove_all_descending() {
    remove_all(vec![10, 9, 8, 7, 6, 5, 4, 3, 2, 1]);
}

#[test]
fn remove_all_mixed() {
    remove_all(vec![4, 8, 1, 10, 5, 2, 9, 3, 7, 6]);
    remove_all(vec![5, 6, 4, 7, 3, 8, 2, 9, 1, 10]);
    remove_all(vec![2, 4, 6, 8, 10, 1, 3, 5, 7, 9]);
}

fn sorted_keys(map: &NaiveBTree<u64, u64>) -> Vec<u64> {
    map.entries().iter().map(|e: &&Entry<u64, u64>| e.key).collect()
}

fn same_as(map: &NaiveBTree<u64, u64>, model: &std::collections::BTreeMap<u64, u64>) {
    assert_eq!(map.len(), model.len());
    assert_eq!(map.is_empty(), model.is_empty());
    let entries: Vec<(u64, u64)> = map.entries().iter().map(|e: &&Entry<u64, u64>| (e.key, e.value)).collect();
    let expected: Vec<(u64, u64)> = model.iter().map(|(k, v)| (*k, *v)).collect();
    assert_eq!(entries, expected);
}

/// The most levels that a tree of minimum degree `t` with `n` entries has.
fn most_levels(t: usize, n: usize) -> usize {
    let mut levels = 1;
    let mut least = 1;
    let mut nodes = 2;
    loop {
        least += nodes * (t - 1);
        if least > n {
            return levels;
        }
        nodes *= t;
        levels += 1;
    }
}

#[test]
fn behaves_as_an_ordered_map() {
    for order in [2usize, 3, 4, 7] {
        let mut map: NaiveBTree<u64, u64> = NaiveBTree::new(order);
        let mut model = std::collections::BTreeMap::new();
        let mut seed: u64 = 0x2545_f491_4f6c_dd1d ^ (order as u64);
        for round in 0..4000u64 {
            seed ^= seed << 13;
            seed ^= seed >> 7;
            seed ^= seed << 17;
            let key = seed % 300;
            let grow = if round < 1500 { seed % 4 != 0 } else { seed % 4 == 0 };
            if grow {
                if round % 2 == 0 {
                    map.insert(key, round);
                } else {
                    map.insert_2(key, round);
                }
                model.insert(key, round);
            } else if round % 2 == 0 {
                assert_eq!(map.remove(&key), model.remove(&key));
            } else {
                assert_eq!(map.remove_2(&key), model.remove(&key));
            }
            assert_eq!(map.get(&key), model.get(&key));
            assert_eq!(map.get(&(key + 1)), model.get(&(key + 1)));
            if round % 97 == 0 {
                same_as(&map, &model);
                assert!(map.height() <= most_levels(order, map.len()));
            }
        }
        same_as(&map, &model);
        let keys = sorted_keys(&map);
        for key in keys {
            assert_eq!(map.remove(&key), model.remove(&key));
            assert_eq!(map.get(&key), None);
        }
        assert!(map.is_empty());
        assert_eq!(map.len(), 0);
        assert_eq!(map.height(), 1);
        assert_eq!(map.order(), order);
    }
}

#[test]
fn insert_over_a_key_replaces_the_value() {
    let mut map = NaiveBTree::new(2);
    map.insert(7, "first");
    assert_eq!(map.len(), 1);
    map.insert(7, "second");
    assert_eq!(map.len(), 1);
    assert_eq!(map.get(&7), Some(&"second"));
    let entries = map.entries();
    assert_eq!(entries.len(), 1);
    assert_eq!(entries[0].key, 7);
    assert_eq!(entries[0].value, "second");
}

#[test]
fn insert_over_a_key_changes_no_node() {
    let mut map = NaiveBTree::new(2);
    for key in [10, 20, 30, 40, 50, 60, 70] {
        map.insert(key, key);
    }
    let levels = map.height();
    // the root of a tree of three entries is full
    let mut small = NaiveBTree::new(2);
    for key in [1, 2, 3] {
        small.insert(key, key);
    }
    assert_eq!(small.height(), 1);
    small.insert(2, 22);
    assert_eq!(small.height(), 1);
    assert_eq!(small.len(), 3);
    assert_eq!(small.get(&2), Some(&22));
    // whereas one descent splits the full root before it finds the key
    small.insert_2(2, 23);
    assert_eq!(small.height(), 2);
    assert_eq!(small.len(), 3);
    assert_eq!(small.get(&2), Some(&23));
    for key in [10, 20, 30, 40, 50, 60, 70] {
        map.insert(key, key + 1);
        assert_eq!(map.height(), levels);
        assert_eq!(map.len(), 7);
        assert_eq!(map.get(&key), Some(&(key + 1)));
    }
}

#[test]
fn remove_of_an_absent_key() {
    let mut map = NaiveBTree::new(3);
    assert_eq!(map.remove(&1), None::<i32>);
    assert_eq!(map.remove_2(&1), None);
    for key in 0..40 {
        map.insert(2 * key, key);
    }
    let levels = map.height();
    for key in 0..40 {
        assert_eq!(map.remove(&(2 * key + 1)), None);
        assert_eq!(map.len(), 40);
        assert_eq!(map.height(), levels);
    }
    assert_eq!(map.remove(&-1), None);
    assert_eq!(map.remove(&100), None);
    assert_eq!(map.remove_2(&41), None);
    assert_eq!(map.len(), 40);
    let keys: Vec<i32> = map.entries().iter().map(|e: &&Entry<i32, i32>| e.key).collect();
    assert_eq!(keys, (0..40).map(|k| 2 * k).collect::<Vec<i32>>());
}

#[test]
fn height_follows_the_splits_and_merges() {
    let mut map = NaiveBTree::new(2);
    let mut levels = Vec::new();
    for key in 1..=10 {
        map.insert_2(key, ());
        levels.push(map.height());
    }
    assert_eq!(levels, vec![1, 1, 1, 2, 2, 2, 2, 2, 3, 3]);
    for key in (1..=10).rev() {
        assert_eq!(map.remove_2(&key), Some(()));
    }
    assert_eq!(map.height(), 1);
    assert!(map.is_empty());
}

#[test]
fn default_tree_has_degree_two() {
    let map: NaiveBTree<u8, u8> = NaiveBTree::default();
    assert_eq!(map.order(), 2);
    assert!(map.is_empty());
    assert_eq!(map.len(), 0);
    assert_eq!(map.height(), 1);
    assert_eq!(map.get(&0), None);
    assert!(map.entries().is_empty());
}

#[test]
fn extend_keeps_the_last_value_of_each_key() {
    let mut map = NaiveBTree::new(2);
    map.insert(4, "old");
    map.insert(9, "kept");
    let entries = vec![
        Entry { key: 1, value: "a" },
        Entry { key: 4, value: "b" },
        Entry { key: 1, value: "c" },
        Entry { key: 7, value: "d" },
        Entry { key: 4, value: "e" },
    ];
    map.extend(entries);
    assert_eq!(map.len(), 4);
    assert_eq!(map.get(&1), Some(&"c"));
    assert_eq!(map.get(&4), Some(&"e"));
    assert_eq!(map.get(&7), Some(&"d"));
    assert_eq!(map.get(&9), Some(&"kept"));
    assert_eq!(map.get(&2), None);
}

#[test]
fn entries_are_equal_where_their_keys_are() {
    assert!(Entry { key: 3, value: "a" } == Entry { key: 3, value: "b" });
    assert!(Entry { key: 3, value: "a" } != Entry { key: 4, value: "a" });
    assert!(Entry { key: 3, value: "z" } < Entry { key: 4, value: "a" });
    assert!(!(Entry { key: 3, value: "a" } < Entry { key: 3, value: "b" }));
}

#[test]
fn remove_of_an_absent_key_changes_no_node() {
    let mut map = NaiveBTree::new(2);
    for key in [1, 2, 3, 4] {
        map.insert(key, key);
    }
    assert_eq!(map.remove(&4), Some(4));
    assert_eq!(map.height(), 2);
    let before = format!("{:?}", map);
    assert_eq!(map.remove_2(&5), None);
    assert_eq!(map.height(), 2);
    assert_eq!(format!("{:?}", map), before);
    assert_eq!(map.remove(&0), None);
    assert_eq!(map.remove_2(&0), None);
    assert_eq!(map.remove(&5), None);
    assert_eq!(format!("{:?}", map), before);

    let mut map = NaiveBTree::new(3);
    for key in 0..200 {
        map.insert(2 * key, key);
    }
    for key in (0..200).step_by(3) {
        assert_eq!(map.remove_2(&(2 * key)), Some(key));
    }
    let before = format!("{:?}", map);
    for key in -5..405 {
        if key % 2 != 0 || (key / 2) % 3 == 0 {
            assert_eq!(map.remove_2(&key), None);
            assert_eq!(map.remove(&key), None);
        }
    }
    assert_eq!(format!("{:?}", map), before);
}

#[test]
fn insert_over_a_key_keeps_the_layout() {
    let mut map = NaiveBTree::new(2);
    for key in 1..=3 {
        map.insert(key, key);
    }
    let before = format!("{:?}", map).replace("value: 2", "value: 22");
    map.insert(2, 22);
    assert_eq!(format!("{:?}", map), before);
}
