use std::collections::HashMap;
use streamstats::basic_hash_table::FixedHashTable;

#[test]
fn lib_test_insert_get_delete() {
    let mut hash_table = FixedHashTable::new(10);

    assert!(hash_table.insert("apple".to_string(), 5).is_ok());
    assert!(hash_table.insert("banana".to_string(), 10).is_ok());
    assert!(hash_table.insert("orange".to_string(), 15).is_ok());

    assert_eq!(hash_table.get(&"apple".to_string()), Some(5).as_ref());
    assert_eq!(hash_table.get(&"banana".to_string()), Some(10).as_ref());
    assert_eq!(hash_table.get(&"grape".to_string()), None);

    assert!(hash_table.delete(&"banana".to_string()).is_ok());
    assert_eq!(hash_table.get(&"banana".to_string()), None);
}

#[test]
fn test_insert_get_equivalence() {
    // fixed key list mirrored against a reference mapping
    let keys = ["aa", "bb", "cc", "dd", "aa", "ee", "ff", "bb", "gg"];
    let mut table = FixedHashTable::new(20);
    let mut map: HashMap<String, i32> = HashMap::new();

    for (i, key) in keys.iter().enumerate() {
        table.insert(key.to_string(), i as i32).unwrap();
        map.insert(key.to_string(), i as i32);
    }

    for key in keys.iter() {
        assert_eq!(table.get(&key.to_string()), map.get(&key.to_string()));
    }
}

#[test]
fn test_size_limit() {
    let mut table = FixedHashTable::new(5);
    let keys = ["a", "b", "c", "d", "e", "f", "g"];

    for (i, key) in keys.iter().enumerate() {
        if i < 5 {
            table.insert(key.to_string(), i).unwrap();
        } else {
            assert_eq!(table.insert(key.to_string(), i), Err("Hash table is full"));
        }
    }

    for (i, key) in keys.iter().enumerate().take(5) {
        assert_eq!(table.get(&key.to_string()), Some(&i));
    }
}

#[test]
fn test_delete_absent_key_fails() {
    let mut table: FixedHashTable<i32> = FixedHashTable::new(4);
    assert_eq!(table.delete(&"missing".to_string()), Err("Key not found"));
    table.insert("here".to_string(), 1).unwrap();
    assert!(table.delete(&"here".to_string()).is_ok());
    assert_eq!(table.delete(&"here".to_string()), Err("Key not found"));
}

#[test]
fn test_update_existing_key() {
    let mut table = FixedHashTable::new(3);
    table.insert("k".to_string(), 1).unwrap();
    table.insert("k".to_string(), 2).unwrap();
    assert_eq!(table.get(&"k".to_string()), Some(&2));
    // an update does not consume a slot
    table.insert("l".to_string(), 3).unwrap();
    table.insert("m".to_string(), 4).unwrap();
    assert!(table.insert("n".to_string(), 5).is_err());
}

#[test]
fn test_tombstone_then_reinsert() {
    let mut table = FixedHashTable::new(4);
    table.insert("x".to_string(), 1).unwrap();
    table.insert("y".to_string(), 2).unwrap();
    table.delete(&"x".to_string()).unwrap();
    // the tombstone is reusable and lookups pass over it
    table.insert("x".to_string(), 10).unwrap();
    assert_eq!(table.get(&"x".to_string()), Some(&10));
    assert_eq!(table.get(&"y".to_string()), Some(&2));
}
