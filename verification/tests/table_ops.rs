use hash_table::prime::Prime;
use hash_table::table::HashTable;

#[test]
fn insert_then_search_returns_value() {
    let mut t = HashTable::new();
    t.insert("k", "v");
    assert_eq!(t.search("k"), Some("v".to_string()));
}

#[test]
fn search_missing_returns_none() {
    let t = HashTable::new();
    assert_eq!(t.search("nothing"), None);
}

#[test]
fn delete_then_search_returns_none() {
    let mut t = HashTable::new();
    t.insert("k", "v");
    t.delete("k");
    assert_eq!(t.search("k"), None);
}

#[test]
fn delete_absent_key_is_noop() {
    let mut t = HashTable::new();
    t.insert("k", "v");
    t.delete("never-inserted");
    assert_eq!(t.count, 1);
    assert_eq!(t.search("k"), Some("v".to_string()));
}

#[test]
fn double_insert_keeps_latest_value_and_count() {
    let mut t = HashTable::new();
    t.insert("k", "first");
    t.insert("k", "second");
    assert_eq!(t.search("k"), Some("second".to_string()));
    assert_eq!(t.count, 1);
}

#[test]
fn double_delete_is_noop() {
    let mut t = HashTable::new();
    t.insert("k", "v");
    t.delete("k");
    assert_eq!(t.count, 0);
    t.delete("k");
    assert_eq!(t.count, 0);
    assert_eq!(t.search("k"), None);
}

#[test]
fn empty_key_round_trip() {
    let mut t = HashTable::new();
    t.insert("", "empty");
    assert_eq!(t.search(""), Some("empty".to_string()));
    t.delete("");
    assert_eq!(t.search(""), None);
}

#[test]
fn tombstone_is_reclaimed_on_reinsert() {
    let mut t = HashTable::new();
    t.insert("k", "v1");
    t.delete("k");
    t.insert("k", "v2");
    assert_eq!(t.count, 1);
    assert_eq!(t.search("k"), Some("v2".to_string()));
}

#[test]
fn end_to_end_scenario() {
    let mut t = HashTable::new();
    t.insert("farzin", "vatani");
    t.insert("me", "v2");
    assert_eq!(t.search("farzin"), Some("vatani".to_string()));
    assert_eq!(t.search("me"), Some("v2".to_string()));
    t.delete("farzin");
    assert_eq!(t.search("farzin"), None);
    assert_eq!(t.search("ali"), None);
    assert_eq!(t.search("me"), Some("v2".to_string()));
}

#[test]
fn new_table_shape() {
    let t = HashTable::new();
    assert_eq!(t.capacity, 53);
    assert_eq!(t.base_size, 53);
    assert_eq!(t.count, 0);
}

#[test]
fn new_sized_rounds_capacity_to_prime() {
    let t = HashTable::new_sized(54);
    assert_eq!(t.base_size, 54);
    assert_eq!(t.capacity, 59);
    let t2 = HashTable::new_sized(0);
    assert_eq!(t2.capacity, 2);
}

#[test]
fn resize_up_fires_above_seventy_percent() {
    let mut t = HashTable::new();
    for i in 0..37 {
        let key = format!("key{}", i);
        let value = format!("value{}", i);
        t.insert(&key, &value);
    }
    // 37 entries in 53 slots is 69%: no growth yet
    assert_eq!(t.capacity, 53);
    assert_eq!(t.count, 37);
    // a 38th entry would put the load at 71%, so this insert grows first
    t.insert("key37", "value37");
    assert_eq!(t.base_size, 106);
    assert_eq!(t.capacity, 107);
    assert_eq!(t.count, 38);
    assert!(t.count * 100 / t.capacity <= 70);
    for i in 0..38 {
        let key = format!("key{}", i);
        let value = format!("value{}", i);
        assert_eq!(t.search(&key), Some(value));
    }
}

#[test]
fn resize_down_fires_below_ten_percent_but_not_below_floor() {
    let mut t = HashTable::new();
    for i in 0..38 {
        let key = format!("key{}", i);
        let value = format!("value{}", i);
        t.insert(&key, &value);
    }
    assert_eq!(t.capacity, 107);
    for i in 0..29 {
        let key = format!("key{}", i);
        t.delete(&key);
    }
    // deleting at 10 live entries saw the load fall under 10% and halved the base
    assert_eq!(t.base_size, 53);
    assert_eq!(t.capacity, 53);
    assert_eq!(t.count, 9);
    for i in 29..38 {
        let key = format!("key{}", i);
        let value = format!("value{}", i);
        assert_eq!(t.search(&key), Some(value));
    }
    // the table never shrinks below its floor, however empty it becomes
    for i in 29..38 {
        let key = format!("key{}", i);
        t.delete(&key);
    }
    assert_eq!(t.count, 0);
    assert_eq!(t.capacity, 53);
}

#[test]
fn capacity_stays_prime_through_resizes() {
    let mut t = HashTable::new();
    for i in 0..200 {
        let key = format!("entry{}", i);
        t.insert(&key, "x");
        assert_eq!(Prime(t.capacity).is_prime(), Some(true));
    }
    for i in 0..200 {
        let key = format!("entry{}", i);
        t.delete(&key);
        assert_eq!(Prime(t.capacity).is_prime(), Some(true));
    }
}

#[test]
fn hash_matches_polynomial_formula() {
    // "ab": 5003 * 97 + 98 = 485389; 485389 mod 53 = 15
    assert_eq!(HashTable::hash("ab", 5003, 53), 15);
    // single character: the code point mod m, whatever the prime
    assert_eq!(HashTable::hash("a", 5003, 53), 44);
    assert_eq!(HashTable::hash("a", 5281, 53), 44);
    // empty string hashes to zero
    assert_eq!(HashTable::hash("", 5003, 53), 0);
    assert_eq!(HashTable::hash("ab", 5003, u64::MAX as u128), 485389);
}

#[test]
fn get_hash_combines_the_two_hashes() {
    // key "a": hash_a = 44, hash_b = 44, step 45; attempt 2: (44 + 90) mod 53 = 28
    assert_eq!(HashTable::get_hash("a", 53, 0), 44);
    assert_eq!(HashTable::get_hash("a", 53, 2), 28);
    for attempt in 0..53 {
        assert!(HashTable::get_hash("farzin", 53, attempt) < 53);
    }
}

#[test]
fn probe_visits_distinct_slots_when_step_is_nonzero() {
    let keys = ["farzin", "me", "ali", "", "a", "key7", "some longer key"];
    let cap: usize = 53;
    for key in keys {
        let hash_b = HashTable::hash(key, 5281, cap as u128);
        if (hash_b + 1) % cap != 0 {
            let mut seen = vec![false; cap];
            for attempt in 0..cap {
                let idx = HashTable::get_hash(key, cap, attempt);
                assert!(!seen[idx], "probe revisited a slot for {:?}", key);
                seen[idx] = true;
            }
            assert!(seen.iter().all(|&s| s));
        }
    }
}

#[test]
fn is_prime_classifies_small_numbers() {
    assert_eq!(Prime(0).is_prime(), None);
    assert_eq!(Prime(1).is_prime(), None);
    assert_eq!(Prime(2).is_prime(), Some(true));
    assert_eq!(Prime(3).is_prime(), Some(true));
    assert_eq!(Prime(4).is_prime(), Some(false));
    assert_eq!(Prime(9).is_prime(), Some(false));
    assert_eq!(Prime(53).is_prime(), Some(true));
    assert_eq!(Prime(91).is_prime(), Some(false));
    assert_eq!(Prime(2147483647).is_prime(), Some(true));
}

#[test]
fn next_prime_finds_least_prime_at_or_above() {
    let mut p = Prime(0);
    assert_eq!(p.next_prime(), 2);
    let mut p = Prime(8);
    assert_eq!(p.next_prime(), 11);
    let mut p = Prime(53);
    assert_eq!(p.next_prime(), 53);
    let mut p = Prime(54);
    assert_eq!(p.next_prime(), 59);
    let mut p = Prime(106);
    assert_eq!(p.next_prime(), 107);
}

#[test]
fn many_keys_round_trip_without_loss() {
    let mut t = HashTable::new();
    for i in 0..500 {
        let key = format!("k-{}", i);
        let value = format!("v-{}", i);
        t.insert(&key, &value);
    }
    assert_eq!(t.count, 500);
    for i in 0..500 {
        let key = format!("k-{}", i);
        let value = format!("v-{}", i);
        assert_eq!(t.search(&key), Some(value));
    }
    for i in 0..500 {
        if i % 2 == 0 {
            let key = format!("k-{}", i);
            t.delete(&key);
        }
    }
    assert_eq!(t.count, 250);
    for i in 0..500 {
        let key = format!("k-{}", i);
        let found = t.search(&key);
        if i % 2 == 0 {
            assert_eq!(found, None);
        } else {
            assert_eq!(found, Some(format!("v-{}", i)));
        }
    }
}
