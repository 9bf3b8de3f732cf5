use std::collections::hash_map::DefaultHasher;
use std::collections::HashMap;
use std::hash::Hasher;
use streamstats::fixed_hash_table::FixedHashTable;

/// Mirrors the table's hashing: the standard hasher fed the seed bytes
/// (little-endian) and then the key's UTF-8 bytes, reduced modulo the size.
fn home_index(seed: u64, size: u64, key: &str) -> usize {
    let mut h = DefaultHasher::new();
    let mut sb = Vec::new();
    for i in 0..8 {
        sb.push((seed >> (8 * i)) as u8);
    }
    h.write(&sb);
    h.write(key.as_bytes());
    (h.finish() % size) as usize
}

#[test]
fn fixed_hash_table_test_insert_get_delete() {
    let mut hash_table = FixedHashTable::new(10);

    assert!(hash_table.insert("apple".to_string(), 5));
    assert!(hash_table.insert("banana".to_string(), 10));
    assert!(hash_table.insert("orange".to_string(), 15));

    assert_eq!(hash_table.get(&"apple".to_string()), Some(5).as_ref());
    assert_eq!(hash_table.get(&"banana".to_string()), Some(10).as_ref());
    assert_eq!(hash_table.get(&"grape".to_string()), None);

    assert!(hash_table.delete(&"banana".to_string()));
    assert_eq!(hash_table.get(&"banana".to_string()), None);
}

#[test]
fn test_get_first_get_last() {
    let mut hash_table = FixedHashTable::new(10);

    assert!(hash_table.insert("1".to_string(), 1));
    assert!(hash_table.insert("2".to_string(), 2));
    assert!(hash_table.insert("2".to_string(), 22));
    assert!(hash_table.insert("3".to_string(), 3));
    assert!(hash_table.insert("3".to_string(), 33));
    assert!(hash_table.insert("4".to_string(), 4));

    hash_table.delete(&"1".to_string());
    hash_table.delete(&"4".to_string());

    let Some((key, value)) = hash_table.get_first() else {
        panic!("existing key value expected")
    };
    assert_eq!(key, "2");
    assert_eq!(*value, 22);

    let Some((key, value)) = hash_table.get_last() else {
        panic!("existing key value expected")
    };
    assert_eq!(key, "3");
    assert_eq!(*value, 33);
}

#[test]
fn test_insert_delete_insert_get_equivalence() {
    // fixed operation sequence mirrored against a reference mapping
    let keys = [
        "ab", "cd", "ef", "ab", "gh", "ij", "cd", "kl", "mn", "op", "qr", "st", "uv", "wx", "yz",
        "ef",
    ];
    let mut table = FixedHashTable::new(20);
    let mut map: HashMap<String, i32> = HashMap::new();

    for (i, key) in keys.iter().enumerate() {
        assert!(table.insert(key.to_string(), i as i32));
        map.insert(key.to_string(), i as i32);
        for probe in keys.iter() {
            assert_eq!(table.get(&probe.to_string()), map.get(&probe.to_string()));
        }
    }

    for key in keys.iter() {
        assert_eq!(table.delete(&key.to_string()), map.remove(&key.to_string()).is_some());
        for probe in keys.iter() {
            assert_eq!(table.get(&probe.to_string()), map.get(&probe.to_string()));
        }
    }

    for (i, key) in keys.iter().enumerate() {
        assert!(table.insert(key.to_string(), (100 + i) as i32));
        map.insert(key.to_string(), (100 + i) as i32);
    }

    for key in keys.iter() {
        assert_eq!(table.get(&key.to_string()), map.get(&key.to_string()));
    }
}

#[test]
fn test_size_limit_inserts_fail_when_full() {
    let max_size = 5;
    let mut table = FixedHashTable::new(max_size);
    let mut map: HashMap<String, usize> = HashMap::new();

    let keys = ["a", "b", "c", "d", "e", "f", "g", "h"];
    for (i, key) in keys.iter().enumerate() {
        if map.len() < max_size {
            assert!(table.insert(key.to_string(), i));
            map.insert(key.to_string(), i);
        } else {
            assert!(!table.insert(key.to_string(), i));
            // an update of an existing key is also refused while full
            assert!(!table.insert("a".to_string(), 999));
        }
    }

    for (key, &value) in map.iter() {
        assert_eq!(table.get(key), Some(&value));
    }
    assert_eq!(table.len(), max_size);
}

#[test]
fn test_order_tracks_latest_writes() {
    let mut table = FixedHashTable::new(8);
    assert!(table.get_first().is_none());
    assert!(table.get_last().is_none());

    assert!(table.insert("a".to_string(), 1));
    assert!(table.insert("b".to_string(), 2));
    assert!(table.insert("c".to_string(), 3));
    assert_eq!(table.get_first().unwrap().0, "a");
    assert_eq!(table.get_last().unwrap().0, "c");

    // updating an existing key moves it to the tail
    assert!(table.insert("a".to_string(), 11));
    assert_eq!(table.get_first().unwrap().0, "b");
    assert_eq!(table.get_last().unwrap().0, "a");

    // an in-place write through get_mut does not refresh recency
    *table.get_mut(&"b".to_string()) = 22;
    assert_eq!(table.get_first().unwrap().0, "b");
    assert_eq!(*table.get(&"b".to_string()).unwrap(), 22);

    // deleting the oldest exposes the next oldest
    assert!(table.delete(&"b".to_string()));
    assert_eq!(table.get_first().unwrap().0, "c");
    assert_eq!(table.get_last().unwrap().0, "a");
}

#[test]
fn test_eviction_of_oldest() {
    // the documented cache pattern: pop the oldest via get_first, delete it
    let mut table = FixedHashTable::new(3);
    assert!(table.insert("x".to_string(), 1));
    assert!(table.insert("y".to_string(), 2));
    assert!(table.insert("z".to_string(), 3));
    assert!(!table.insert("w".to_string(), 4));

    let oldest = table.get_first().unwrap().0;
    assert_eq!(oldest, "x");
    assert!(table.delete(&oldest));
    assert!(table.insert("w".to_string(), 4));
    assert_eq!(table.get(&"w".to_string()), Some(&4));
    assert_eq!(table.get(&"x".to_string()), None);
    assert_eq!(table.get_last().unwrap().0, "w");
}

#[test]
fn test_tombstone_reuse_same_home_index() {
    // find two distinct keys sharing a home index, delete the first, insert
    // the second: it must land through the tombstone and be found
    let seed = 12345u64;
    let size = 10usize;
    let k1 = "base".to_string();
    let h1 = home_index(seed, size as u64, &k1);
    let mut k2 = String::new();
    for i in 0..10000 {
        let cand = format!("cand{}", i);
        if home_index(seed, size as u64, &cand) == h1 {
            k2 = cand;
            break;
        }
    }
    assert!(!k2.is_empty(), "no colliding key found");

    let mut table = FixedHashTable::with_seed(size, seed);
    assert!(table.insert(k1.clone(), 1));
    assert!(table.delete(&k1));
    assert!(table.insert(k2.clone(), 2));
    assert_eq!(table.get(&k2), Some(&2));
    assert_eq!(table.get(&k1), None);
}

#[test]
fn test_rehash_preserves_contents_and_order() {
    let mut table = FixedHashTable::new(9);
    let mut map: HashMap<String, usize> = HashMap::new();

    // repeated insert/delete cycles drive the tombstone count up until the
    // rehash trigger fires inside delete, repeatedly
    for i in 0..60 {
        let key = format!("k{}", i);
        assert!(table.insert(key.clone(), i));
        map.insert(key, i);
        if i >= 3 {
            let old = format!("k{}", i - 3);
            assert!(table.delete(&old));
            map.remove(&old);
        }
        for j in 0..=i {
            let probe = format!("k{}", j);
            assert_eq!(table.get(&probe), map.get(&probe), "probe {} at step {}", probe, i);
        }
    }

    // an explicit rehash also changes nothing observable
    let first = table.get_first().unwrap().0.clone();
    let last = table.get_last().unwrap().0.clone();
    table.rehash();
    assert_eq!(table.get_first().unwrap().0, first);
    assert_eq!(table.get_last().unwrap().0, last);
    for (key, &value) in map.iter() {
        assert_eq!(table.get(key), Some(&value));
    }
    assert_eq!(table.len(), map.len());
}

#[test]
fn test_len_and_is_empty() {
    let mut table = FixedHashTable::new(4);
    assert!(table.is_empty());
    assert_eq!(table.len(), 0);
    assert!(table.insert("a".to_string(), 1));
    assert!(table.insert("a".to_string(), 2));
    assert_eq!(table.len(), 1);
    assert!(!table.is_empty());
    assert!(table.delete(&"a".to_string()));
    assert!(table.is_empty());
}

#[test]
fn test_get_index_finds_live_slot() {
    let mut table = FixedHashTable::new(6);
    assert!(table.insert("alpha".to_string(), 7));
    assert!(table.get_index(&"alpha".to_string()).is_some());
    assert!(table.get_index(&"beta".to_string()).is_none());
    assert!(table.delete(&"alpha".to_string()));
    assert!(table.get_index(&"alpha".to_string()).is_none());
}

#[test]
fn test_capacity_one() {
    // the smallest table: one slot, every key shares the single home index
    let mut table = FixedHashTable::new(1);
    assert!(table.insert("only".to_string(), 1));
    assert!(!table.insert("other".to_string(), 2));
    assert_eq!(table.get(&"only".to_string()), Some(&1));
    assert_eq!(table.get_first().unwrap().0, "only");

    // deleting the lone key trips the rehash trigger and clears the tombstone
    assert!(table.delete(&"only".to_string()));
    assert!(table.is_empty());
    assert!(table.insert("other".to_string(), 2));
    assert_eq!(table.get(&"other".to_string()), Some(&2));
    assert_eq!(table.get(&"only".to_string()), None);
    assert_eq!(table.get_last().unwrap().0, "other");
}
