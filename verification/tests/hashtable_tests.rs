use tfidf_search::hashtable::{hash_function, rehash, HashTable};

#[test]
fn collision_probes_step_by_three() {
    // find two distinct keys that share a home slot in a five-slot table
    let cap = 5usize;
    let mut first: Option<(String, usize)> = None;
    let mut pair: Option<(String, String, usize)> = None;
    for i in 0..1000 {
        let key = format!("t{}", i);
        let h = hash_function(&key, cap);
        match &first {
            None => first = Some((key, h)),
            Some((k0, h0)) => {
                if *h0 == h && *k0 != key {
                    pair = Some((k0.clone(), key, h));
                    break;
                }
            }
        }
    }
    let (k1, k2, h) = pair.expect("a colliding pair exists among 1000 keys");
    let mut ht: HashTable<usize> = HashTable::new(cap);
    ht.insert_combine(&k1, 10);
    ht.insert_combine(&k2, 20);
    // both keys are retrievable after the collision
    assert_eq!(ht.get(&k1), Some(&10));
    assert_eq!(ht.get(&k2), Some(&20));
    // the first sits at its home slot, the second three slots on
    let buckets = ht.get_buckets();
    assert!(buckets[h].as_ref().is_some_and(|e| e.key == k1));
    let h2 = rehash(h, cap);
    assert_eq!(h2, (h + 3) % cap);
    assert!(buckets[h2].as_ref().is_some_and(|e| e.key == k2));
}

#[test]
fn insert_combine_sums_counts() {
    let mut ht: HashTable<usize> = HashTable::new(7);
    ht.insert_combine(&"a".to_string(), 1);
    ht.insert_combine(&"a".to_string(), 1);
    ht.insert_combine(&"b".to_string(), 1);
    assert_eq!(ht.get(&"a".to_string()), Some(&2));
    assert_eq!(ht.get(&"b".to_string()), Some(&1));
    assert_eq!(ht.get(&"c".to_string()), None);
    assert_eq!(ht.get_num_elements(), 2);
    assert!(ht.intable(&"a".to_string()));
    assert!(!ht.intable(&"c".to_string()));
}

#[test]
fn reset_clears_every_slot() {
    let mut ht: HashTable<usize> = HashTable::new(7);
    ht.insert_combine(&"a".to_string(), 1);
    ht.reset();
    assert_eq!(ht.get_num_elements(), 0);
    assert_eq!(ht.get(&"a".to_string()), None);
    assert!(ht.get_buckets().iter().all(|b| b.is_none()));
}

#[test]
fn table_doubles_when_over_half_full() {
    let mut ht: HashTable<usize> = HashTable::new(4);
    for i in 0..6 {
        ht.insert_combine(&format!("k{}", i), 1);
    }
    assert_eq!(ht.get_num_elements(), 6);
    assert!(ht.get_size() >= 8);
    for i in 0..6 {
        assert_eq!(ht.get(&format!("k{}", i)), Some(&1));
    }
}

#[test]
fn hash_is_deterministic_and_in_range() {
    for i in 0..50 {
        let k = format!("term{}", i);
        let h1 = hash_function(&k, 101);
        let h2 = hash_function(&k, 101);
        assert_eq!(h1, h2);
        assert!(h1 < 101);
    }
}
