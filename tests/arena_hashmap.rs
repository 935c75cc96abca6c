use std::collections::HashMap;

use tantivy::arena_hashmap::{compute_previous_power_of_two, compute_table_size, ArenaHashMap};

#[test]
fn test_hash_map() {
    let mut hash_map: ArenaHashMap = ArenaHashMap::new(1 << 18);
    hash_map.mutate_or_create(b"abc", |opt_val: Option<u32>| {
        assert_eq!(opt_val, None);
        3u32
    });
    hash_map.mutate_or_create(b"abcd", |opt_val: Option<u32>| {
        assert_eq!(opt_val, None);
        4u32
    });
    hash_map.mutate_or_create(b"abc", |opt_val: Option<u32>| {
        assert_eq!(opt_val, Some(3u32));
        5u32
    });
    let mut vanilla_hash_map = HashMap::new();
    let iter_values = hash_map.iter();
    for (key, addr, _) in iter_values {
        let val: u32 = hash_map.read(addr);
        vanilla_hash_map.insert(key.to_owned(), val);
    }
    assert_eq!(vanilla_hash_map.len(), 2);
}

#[test]
fn test_compute_previous_power_of_two() {
    assert_eq!(compute_previous_power_of_two(8), 8);
    assert_eq!(compute_previous_power_of_two(9), 8);
    assert_eq!(compute_previous_power_of_two(7), 4);
    assert_eq!(compute_previous_power_of_two(u64::MAX as usize), 1 << 63);
}

#[test]
fn ids_are_dense_and_values_updated() {
    let mut map = ArenaHashMap::new(4);
    assert!(map.is_empty());
    assert_eq!(map.mutate_or_create(b"a", |_| 1), 0);
    assert_eq!(map.mutate_or_create(b"b", |_| 2), 1);
    assert_eq!(map.mutate_or_create(b"a", |v| v.unwrap() + 10), 0);
    assert_eq!(map.len(), 2);
    assert_eq!(map.get(b"a"), Some(11));
    assert_eq!(map.get(b"b"), Some(2));
    assert_eq!(map.get(b"c"), None);
}

#[test]
fn growing_table_keeps_entries() {
    let mut map = ArenaHashMap::new(1);
    for i in 0u32..500 {
        let key = format!("key{i}");
        assert_eq!(map.mutate_or_create(key.as_bytes(), |_| i * 2), i);
    }
    assert_eq!(map.len(), 500);
    for i in 0u32..500 {
        let key = format!("key{i}");
        assert_eq!(map.get(key.as_bytes()), Some(i * 2));
    }
    let entries = map.iter();
    assert_eq!(entries.len(), 500);
    for (i, (key, addr, id)) in entries.iter().enumerate() {
        assert_eq!(*id as usize, i);
        assert_eq!(key, format!("key{i}").as_bytes());
        assert_eq!(map.read(*addr), (i as u32) * 2);
    }
    assert!(map.mem_usage() >= 500 * 12);
}

#[test]
fn empty_key_is_a_key() {
    let mut map = ArenaHashMap::new(2);
    assert_eq!(map.get(b""), None);
    map.mutate_or_create(b"", |_| 7);
    assert_eq!(map.get(b""), Some(7));
}

#[test]
fn table_size_in_bytes() {
    assert_eq!(compute_table_size(16), 192);
}

#[test]
fn table_doubles_at_one_entry_per_three_buckets() {
    let mut map = ArenaHashMap::new(2);
    assert_eq!(map.mem_usage(), 2 * 12);
    map.mutate_or_create(b"a", |_| 1);
    assert_eq!(map.mem_usage(), 2 * 12);
    map.mutate_or_create(b"b", |_| 2);
    assert_eq!(map.mem_usage(), 4 * 12);
    assert_eq!(map.get(b"a"), Some(1));
    assert_eq!(map.get(b"b"), Some(2));
}
