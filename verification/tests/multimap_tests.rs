use multimap::MultiMap;

fn create_test_map() -> MultiMap<u64, u64> {
    let mut map: MultiMap<u64, u64> = MultiMap::new();
    map.insert(1, 3);
    map.insert(1, 5);
    map.insert(1, 7);
    map
}

#[test]
fn test_order() {
    let map = create_test_map();
    let vec = map.as_vec();
    let mut iter = vec.iter();
    assert_eq!(iter.next().unwrap(), &(1, 3));
    assert_eq!(iter.next().unwrap(), &(1, 5));
    assert_eq!(iter.next().unwrap(), &(1, 7));
}

#[test]
fn test_remove() {
    let mut map = create_test_map();
    let key = &1;
    map.remove(key);
    assert!(!map.contains_key(key));
    assert_eq!(map.len(), 0);
}

#[test]
fn test_remove_value() {
    let mut map = create_test_map();

    map.remove_value(&1, &3);
    assert_eq!(map.get(&1).len(), 2);
    assert!(!map.get(&1).contains(&3));

    map.remove_value(&1, &5);
    assert_eq!(map.get(&1).len(), 1);
    assert!(!map.get(&1).contains(&5));

    map.remove_value(&1, &7);
    assert!(!map.contains_key(&1));
}

#[test]
fn test_from_iterator() {
    // sorted input tuples
    let input = vec![(1, 3), (1, 5), (2, 6)];
    let map: MultiMap<u64, u64> = MultiMap::from_sequence(&input);
    let mut test = map.as_vec();

    test.sort();

    assert_eq!(input, test);
}

#[test]
fn test_new_is_empty() {
    let map: MultiMap<u64, u64> = MultiMap::new();
    assert!(map.is_empty());
    assert_eq!(map.len(), 0);
    assert!(!map.contains_key(&1));
}

#[test]
fn test_clear() {
    let mut map = create_test_map();
    map.insert(2, 9);
    assert_eq!(map.len(), 2);
    map.clear();
    assert!(map.is_empty());
    assert!(!map.contains_key(&1));
    assert!(!map.contains_key(&2));
}

#[test]
fn test_len_counts_keys_not_values() {
    let map = create_test_map();
    assert_eq!(map.len(), 1);
    assert!(!map.is_empty());
}

#[test]
fn test_get_keeps_insertion_order() {
    let map = create_test_map();
    assert_eq!(map.get(&1), &vec![3, 5, 7]);
}

#[test]
fn test_get_mut_edits_in_place() {
    let mut map = create_test_map();
    map.get_mut(&1).push(9);
    assert_eq!(map.get(&1), &vec![3, 5, 7, 9]);
}

#[test]
fn test_duplicate_pairs_retained() {
    let mut map: MultiMap<u64, u64> = MultiMap::new();
    map.insert(1, 3);
    map.insert(1, 3);
    assert_eq!(map.get(&1).len(), 2);
    assert_eq!(map.get(&1), &vec![3, 3]);
}

#[test]
fn test_remove_value_removes_every_occurrence() {
    let mut map: MultiMap<u64, u64> = MultiMap::new();
    map.insert(1, 3);
    map.insert(1, 5);
    map.insert(1, 3);
    let found = map.remove_value(&1, &3);
    assert!(found);
    assert_eq!(map.get(&1), &vec![5]);
}

#[test]
fn test_remove_value_absent_key_and_value() {
    let mut map = create_test_map();
    // absent key: false, nothing changes
    assert!(!map.remove_value(&2, &3));
    assert_eq!(map.len(), 1);
    // present key, absent value: still true, nothing removed
    assert!(map.remove_value(&1, &42));
    assert_eq!(map.get(&1), &vec![3, 5, 7]);
}

#[test]
fn test_remove_absent_key() {
    let mut map = create_test_map();
    assert!(!map.remove(&2));
    assert!(map.remove(&1));
    assert!(!map.remove(&1));
}

#[test]
fn test_equals_ignores_key_insertion_order() {
    let mut a: MultiMap<u64, u64> = MultiMap::new();
    a.insert(1, 3);
    a.insert(1, 5);
    a.insert(2, 6);
    let mut b: MultiMap<u64, u64> = MultiMap::new();
    b.insert(2, 6);
    b.insert(1, 3);
    b.insert(1, 5);
    assert!(a.equals(&b));
    assert!(b.equals(&a));
}

#[test]
fn test_equals_respects_value_order_and_content() {
    let swapped = MultiMap::from_sequence(&vec![(1, 5), (1, 3)]);
    let plain = MultiMap::from_sequence(&vec![(1, 3), (1, 5)]);
    assert!(!plain.equals(&swapped));

    let smaller = MultiMap::from_sequence(&vec![(1, 3)]);
    assert!(!plain.equals(&smaller));
    assert!(!smaller.equals(&plain));

    let extra_key = MultiMap::from_sequence(&vec![(1, 3), (1, 5), (2, 6)]);
    assert!(!plain.equals(&extra_key));
}

#[test]
fn test_from_sequence_pair_count() {
    let input = vec![(1, 3), (1, 5), (2, 6), (3, 6), (1, 3)];
    let map: MultiMap<u64, u64> = MultiMap::from_sequence(&input);
    assert_eq!(map.as_vec().len(), input.len());
    assert_eq!(map.len(), 3);
    assert_eq!(map.get(&1), &vec![3, 5, 3]);
}

#[test]
fn test_as_vec_groups_each_key() {
    let input = vec![(1, 3), (2, 6), (1, 5)];
    let map: MultiMap<u64, u64> = MultiMap::from_sequence(&input);
    let pairs = map.as_vec();
    let key1: Vec<u64> = pairs.iter().filter(|p| p.0 == 1).map(|p| p.1).collect();
    let key2: Vec<u64> = pairs.iter().filter(|p| p.0 == 2).map(|p| p.1).collect();
    assert_eq!(key1, vec![3, 5]);
    assert_eq!(key2, vec![6]);
}
