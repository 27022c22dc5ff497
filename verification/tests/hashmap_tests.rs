use kmer_count::hashmap::Hashmap;

#[test]
fn test_create_hash() {
    let hashmap = Hashmap::new(10);
    assert_eq!(hashmap.capacity, 10);
    assert_eq!(hashmap.container.len(), 10);
    for i in 0..10 {
        assert_eq!(hashmap.container[i], 0);
    }
}

#[test]
fn test_add_to_hash() {
    let mut hashmap = Hashmap::new(10);
    hashmap.add(10, "Test1".to_string()).unwrap();
    hashmap.add(11, "Test2".to_string()).unwrap();

    assert_eq!(hashmap.container[0], 10);
    assert_eq!(hashmap.dce_id[0], vec!["Test1".to_string()]);
    assert_eq!(hashmap.container[1], 11);
    assert_eq!(hashmap.dce_id[1], vec!["Test2".to_string()]);
}

#[test]
fn test_contains_value() {
    let mut hashmap = Hashmap::new(10);
    hashmap.container[0] = 10;
    hashmap.used[0] = true;
    hashmap.container[2] = 12;
    hashmap.used[2] = true;
    // Collision that had to probe
    hashmap.container[3] = 2;
    hashmap.used[3] = true;

    assert_eq!(hashmap.contains(10), true);
    assert_eq!(hashmap.contains(12), true);
    assert_eq!(hashmap.contains(2), true);

    assert_eq!(hashmap.contains(1), false);
    assert_eq!(hashmap.contains(11), false);
}

#[test]
fn test_duplicate_gathers_identifiers() {
    let mut hashmap = Hashmap::new(10);
    hashmap.add(23, "first".to_string()).unwrap();
    hashmap.add(23, "second".to_string()).unwrap();
    assert_eq!(hashmap.index, 3);
    assert_eq!(
        hashmap.dce_id[3],
        vec!["first".to_string(), "second".to_string()]
    );
}

#[test]
fn test_get_index_finds_slot() {
    let mut hashmap = Hashmap::new(10);
    hashmap.add(10, "a".to_string()).unwrap();
    hashmap.add(20, "b".to_string()).unwrap();
    assert_eq!(hashmap.get_index(10), 0);
    // 20 collides with 10 at slot 0 and lands one further.
    assert_eq!(hashmap.get_index(20), 1);
    // An absent key ends at the unoccupied slot its chain runs into.
    let free = hashmap.get_index(30);
    assert_eq!(free, 2);
    assert_eq!(hashmap.container[free], 0);
}

#[test]
fn test_zero_key_is_storable() {
    // The all-A needle packs to the key value 0; occupancy does not come
    // from the key field, so it registers like any other key.
    let mut hashmap = Hashmap::new(10);
    hashmap.add(0, "poly-a".to_string()).unwrap();
    assert!(hashmap.contains(0));
    let slot = hashmap.get_index(0);
    assert_eq!(slot, 0);
    assert_eq!(hashmap.dce_id[slot], vec!["poly-a".to_string()]);
    assert!(!hashmap.contains(10));
}

#[test]
fn test_full_table_reports() {
    let mut hashmap = Hashmap::new(1);
    hashmap.add(5, "only".to_string()).unwrap();
    // The one slot is taken by another key.
    assert!(hashmap.add(6, "extra".to_string()).is_err());
    // The stored key still coalesces.
    hashmap.add(5, "alias".to_string()).unwrap();
    assert_eq!(
        hashmap.dce_id[0],
        vec!["only".to_string(), "alias".to_string()]
    );
}
