use amiko::kv::Database;

#[test]
fn test_insert_and_get() {
    let mut storage = Database::new();
    let key = vec![1, 2, 3];
    let value = vec![4, 5, 6];

    storage.insert(key.clone(), value.clone());

    assert_eq!(storage.get(&key), Some(value));
}

#[test]
fn test_insert_and_remove() {
    let mut storage = Database::new();
    let key = vec![1, 2, 3];
    let value = vec![4, 5, 6];

    storage.insert(key.clone(), value.clone());

    assert_eq!(storage.remove(&key), Some(value));
    assert_eq!(storage.get(&key), None);
}

#[test]
fn test_search_keys() {
    let mut storage = Database::new();

    storage.insert("Alleria".as_bytes().to_vec(), vec![]);
    storage.insert("Alan".as_bytes().to_vec(), vec![]);
    storage.insert("Boris".as_bytes().to_vec(), vec![]);

    let result = storage.search_keys("Al*".as_bytes());
    assert_eq!(result.len(), 2);
    assert!(result.contains(&"Alleria".as_bytes().to_vec()));
    assert!(result.contains(&"Alan".as_bytes().to_vec()));

    let result = storage.search_keys("*".as_bytes());
    assert_eq!(result.len(), 3);
    assert!(result.contains(&"Alleria".as_bytes().to_vec()));
    assert!(result.contains(&"Alan".as_bytes().to_vec()));
    assert!(result.contains(&"Boris".as_bytes().to_vec()));

    let result = storage.search_keys("B*".as_bytes());
    assert_eq!(result.len(), 1);
    assert!(result.contains(&"Boris".as_bytes().to_vec()));

    let result = storage.search_keys("b*".as_bytes());
    assert_eq!(result.len(), 0);

    let result = storage.search_keys("A???".as_bytes());
    assert_eq!(result.len(), 1);
    assert!(result.contains(&"Alan".as_bytes().to_vec()));

    let result = storage.search_keys("Ala[kn]".as_bytes());
    assert_eq!(result.len(), 1);
    assert!(result.contains(&"Alan".as_bytes().to_vec()));

    let result = storage.search_keys("Ala[^z]".as_bytes());
    assert_eq!(result.len(), 1);
    assert!(result.contains(&"Alan".as_bytes().to_vec()));

    let result = storage.search_keys("Ala[k-p]".as_bytes());
    assert_eq!(result.len(), 1);
    assert!(result.contains(&"Alan".as_bytes().to_vec()));

    let result = storage.search_keys("*la*".as_bytes());
    assert_eq!(result.len(), 1);
    assert!(result.contains(&"Alan".as_bytes().to_vec()));

    let result = storage.search_keys("*lan".as_bytes());
    assert_eq!(result.len(), 1);
    assert!(result.contains(&"Alan".as_bytes().to_vec()));

    // Overall validity
    storage.insert("K{v".as_bytes().to_vec(), vec![]);

    let result = storage.search_keys("K{v".as_bytes());
    assert_eq!(result.len(), 1);
    assert!(result.contains(&"K{v".as_bytes().to_vec()));
}

#[test]
fn set_get_round_trip_empty_and_binary() {
    let mut storage = Database::new();

    storage.insert(vec![], vec![]);
    assert_eq!(storage.get(&[]), Some(vec![]));

    let key = vec![0u8, 255, 254, 1, 128];
    let value = vec![255u8, 0, 7];
    storage.insert(key.clone(), value.clone());
    assert_eq!(storage.get(&key), Some(value.clone()));

    storage.insert(key.clone(), vec![9, 9]);
    assert_eq!(storage.get(&key), Some(vec![9, 9]));
}

#[test]
fn delete_present_and_absent() {
    let mut storage = Database::new();
    storage.insert(vec![1], vec![2]);

    assert_eq!(storage.remove(&[1]), Some(vec![2]));
    assert_eq!(storage.get(&[1]), None);
    assert_eq!(storage.remove(&[1]), None);
    assert_eq!(storage.remove(&[42]), None);
}

#[test]
fn clear_empties_the_store() {
    let mut storage = Database::new();
    storage.insert(vec![1], vec![2]);
    storage.insert(vec![3], vec![4]);
    storage.insert("a key".as_bytes().to_vec(), "a value".as_bytes().to_vec());

    storage.clear();

    assert_eq!(storage.get(&[1]), None);
    assert_eq!(storage.get(&[3]), None);
    assert_eq!(storage.get("a key".as_bytes()), None);
    assert_eq!(storage.search_keys("*".as_bytes()).len(), 0);
}

#[test]
fn independent_inserts_all_retrievable() {
    let mut storage = Database::new();
    for i in 0u8..50 {
        storage.insert(vec![i], vec![i, i]);
    }
    for i in 0u8..50 {
        assert_eq!(storage.get(&[i]), Some(vec![i, i]));
    }
    assert_eq!(storage.search_keys("*".as_bytes()).len(), 50);
}

#[test]
fn search_keys_star_is_exact_key_set() {
    let mut storage = Database::new();
    storage.insert(vec![200, 201], vec![]);
    storage.insert("plain".as_bytes().to_vec(), vec![]);
    storage.insert(vec![], vec![1]);

    let mut result = storage.search_keys("*".as_bytes());
    result.sort();
    let mut expected = vec![vec![], "plain".as_bytes().to_vec(), vec![200, 201]];
    expected.sort();
    assert_eq!(result, expected);
}

#[test]
fn search_keys_bad_pattern_matches_nothing() {
    let mut storage = Database::new();
    storage.insert("Alan".as_bytes().to_vec(), vec![]);

    // An unbalanced class cannot compile; the search reports no matches
    // rather than failing.
    let result = storage.search_keys("Ala[".as_bytes());
    assert_eq!(result.len(), 0);
}
