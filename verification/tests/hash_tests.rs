#[test]
fn hash_create() {
    let hash = kmer_count::hash::Hash::new(10);
    assert_eq!(hash.capacity, 10);
    assert_eq!(hash.key.len(), 10);
    assert_eq!(hash.hits.len(), 10);

    for i in 0..10 {
        assert_eq!(hash.key[i], 0);
        assert_eq!(hash.hits[i], -1);
    }
}

#[test]
fn hash_add() {
    let mut hash = kmer_count::hash::Hash::new(10);
    let _ = hash.add(10);
    assert_eq!(hash.key[0], 10);
    assert_eq!(hash.hits[0], 0);

    let _ = hash.add(11);
    assert_eq!(hash.key[1], 11);
    assert_eq!(hash.hits[1], 0);

    // 0 will collide with 10 and should be pushed over 2 places
    let _ = hash.add(0);
    assert_eq!(hash.key[2], 0);
    assert_eq!(hash.hits[2], 0);

    // 19 should be placed at the end
    let _ = hash.add(19);
    assert_eq!(hash.key[9], 19);
    assert_eq!(hash.hits[9], 0);

    // 9 will conflict with 19 and will wrap around
    let _ = hash.add(9);
    assert_eq!(hash.key[3], 9);
    assert_eq!(hash.hits[3], 0);
}

#[test]
fn hash_find() {
    let mut hash = kmer_count::hash::Hash::new(10);
    for val in &[10, 11, 0] {
        let _ = hash.add(*val);
    }

    let res = hash.find(10);
    assert_eq!(res, Some(0));

    let res = hash.find(11);
    assert_eq!(res, Some(1));

    let res = hash.find(0);
    assert_eq!(res, Some(2));

    let res = hash.find(12);
    assert!(res.is_none());
}

#[test]
fn hash_inc_get_hits() {
    let mut hash = kmer_count::hash::Hash::new(10);
    for val in &[10, 11, 0] {
        let _ = hash.add(*val);
    }

    for val in &[10, 11, 10, 11, 11, 0] {
        let _ = hash.inc_hits(*val);
    }

    assert_eq!(hash.get_hits(10), Some(2));
    assert_eq!(hash.get_hits(11), Some(3));
    assert_eq!(hash.get_hits(0), Some(1));
    assert!(hash.get_hits(1).is_none());
}

#[test]
fn hash_add_coalesces_duplicates() {
    let mut hash = kmer_count::hash::Hash::new(10);
    assert!(hash.add(7).is_ok());
    assert!(hash.add(7).is_ok());
    // Only one slot is taken: the one behind the home slot stays free.
    assert_eq!(hash.key[7], 7);
    assert_eq!(hash.hits[7], 0);
    assert_eq!(hash.hits[8], -1);
    hash.inc_hits(7);
    assert_eq!(hash.get_hits(7), Some(1));
}

#[test]
fn hash_add_full_table() {
    let mut hash = kmer_count::hash::Hash::new(1);
    assert!(hash.add(1).is_ok());
    // The only slot is taken by another key.
    assert!(hash.add(2).is_err());
    // Re-adding the stored key still coalesces.
    assert!(hash.add(1).is_ok());
}

#[test]
fn hash_counts_climb_one_per_call() {
    let mut hash = kmer_count::hash::Hash::new(10);
    let _ = hash.add(3);
    for expected in 1..=5u64 {
        hash.inc_hits(3);
        assert_eq!(hash.get_hits(3), Some(expected));
    }
}

#[test]
fn hash_oversampled_lookups_never_miss() {
    // 10 keys in a table of 8 times as many slots: every key is found.
    let keys: Vec<u64> = (0..10).map(|i| i * 1_000_003 + 17).collect();
    let mut hash = kmer_count::hash::Hash::new(keys.len() * 8);
    for k in &keys {
        assert!(hash.add(*k).is_ok());
    }
    for k in &keys {
        assert!(hash.find(*k).is_some());
        assert_eq!(hash.get_hits(*k), Some(0));
    }
}

#[test]
fn hash_miss_mutates_nothing() {
    let mut hash = kmer_count::hash::Hash::new(10);
    let _ = hash.add(4);
    hash.inc_hits(5);
    assert_eq!(hash.get_hits(4), Some(0));
    assert!(hash.get_hits(5).is_none());
}
