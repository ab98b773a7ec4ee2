use chainmap::HashMap;

#[test]
fn insert() {
    let mut map = HashMap::new();
    let val = 42;
    let key = "test";
    map.insert(key, val);
    assert_eq!(
        map.items, 1,
        "Test Failed for number of items {} == {}",
        map.items, 1
    );
}

#[test]
fn get() {
    let mut map = HashMap::new();
    let val = 42;
    let key = "test";
    map.insert(key, val);
    if let Some(ret_val) = map.get(&"test") {
        assert_eq!(
            ret_val, &val,
            "Test Failed for get method: {} == {}",
            ret_val, val
        );
    }
}

#[test]
fn remove() {
    let mut map = HashMap::new();
    let val = 42;
    let key = "test";
    map.insert(key, val);
    if let Some(ret_val) = map.remove(&"test") {
        assert_eq!(
            ret_val, val,
            "Test Failed for remove method: {} == {}",
            ret_val, val
        );
        assert_eq!(
            map.items, 0,
            "Test Failed for number of items after removal {} == {}",
            map.items, 0
        );
    }
}

#[test]
fn single_key_lifecycle() {
    let mut t = HashMap::new();
    assert_eq!(t.insert("a", 1), None);
    assert_eq!(t.items, 1);
    assert_eq!(t.insert("a", 2), Some(1));
    assert_eq!(t.items, 1);
    assert_eq!(t.get(&"a"), Some(&2));
    assert_eq!(t.remove(&"a"), Some(2));
    assert_eq!(t.items, 0);
    assert_eq!(t.get(&"a"), None);
}

#[test]
fn two_keys_coexist() {
    let mut t = HashMap::new();
    assert_eq!(t.insert("alpha", 1), None);
    assert_eq!(t.insert("beta", 2), None);
    assert_eq!(t.items, 2);
    assert_eq!(t.get(&"alpha"), Some(&1));
    assert_eq!(t.get(&"beta"), Some(&2));
    assert_eq!(t.remove(&"gamma"), None);
    assert_eq!(t.items, 2);
}

#[test]
fn read_before_first_insert() {
    let mut t: HashMap<&'static str, i32> = HashMap::new();
    assert_eq!(t.bucket_count(), 0);
    assert_eq!(t.get(&"missing"), None);
    assert_eq!(t.remove(&"missing"), None);
    assert_eq!(t.items, 0);
}

#[test]
fn explicit_resize_keeps_contents() {
    let mut t = HashMap::new();
    t.insert("a", 1);
    t.insert("b", 2);
    t.insert("c", 3);
    let before = t.bucket_count();
    t.resize();
    assert_eq!(t.bucket_count(), before * 2);
    assert_eq!(t.items, 3);
    assert_eq!(t.get(&"a"), Some(&1));
    assert_eq!(t.get(&"b"), Some(&2));
    assert_eq!(t.get(&"c"), Some(&3));
}

#[test]
fn bulk_hundred_keys() {
    let mut t = HashMap::new();
    let mut k: u64 = 0;
    while k < 100 {
        assert_eq!(t.insert(k, k + 1000), None);
        // the load-factor bound holds after every operation
        assert!(t.items <= t.bucket_count());
        k += 1;
    }
    assert_eq!(t.items, 100);
    // the bucket array doubled often enough to keep the load factor at or
    // under 3/4
    assert!(4 * t.items <= 3 * t.bucket_count());
    assert_eq!(t.bucket_count(), 256);
    k = 0;
    while k < 100 {
        assert_eq!(t.get(&k), Some(&(k + 1000)));
        k += 1;
    }
}

#[test]
fn growth_schedule() {
    let mut t = HashMap::new();
    assert_eq!(t.bucket_count(), 0);
    t.insert(1u64, 0u64);
    assert_eq!(t.bucket_count(), 1);
    t.insert(2, 0);
    assert_eq!(t.bucket_count(), 2);
    t.insert(3, 0);
    assert_eq!(t.bucket_count(), 4);
    t.insert(4, 0);
    assert_eq!(t.bucket_count(), 8);
    t.insert(5, 0);
    assert_eq!(t.bucket_count(), 8);
    t.insert(6, 0);
    assert_eq!(t.bucket_count(), 8);
    t.insert(7, 0);
    assert_eq!(t.bucket_count(), 16);
}

#[test]
fn overwrite_during_growth() {
    let mut t = HashMap::new();
    let mut k: u64 = 0;
    while k < 20 {
        assert_eq!(t.insert(k, k), None);
        k += 1;
    }
    // overwriting present keys never changes the item count
    k = 0;
    while k < 20 {
        assert_eq!(t.insert(k, k + 500), Some(k));
        assert_eq!(t.items, 20);
        k += 1;
    }
    // removals give back the latest values and count down to empty
    k = 0;
    while k < 20 {
        assert_eq!(t.remove(&k), Some(k + 500));
        assert_eq!(t.get(&k), None);
        assert_eq!(t.items, (19 - k) as usize);
        k += 1;
    }
}
