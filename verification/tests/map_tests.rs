use hashable::{Hashable, HashableHashMap, ScratchPool};

fn fast_hash_of_map(m: &HashableHashMap<String, i64>) -> u64 {
    let mut pool = ScratchPool::new();
    m.fingerprint_fast(&mut pool)
}

#[test]
fn lib_different_hash_if_items_differ() {
    let mut map = HashableHashMap::new();
    map.insert(String::from("one"), 1i64);
    map.insert(String::from("two"), 2i64);
    map.insert(String::from("three"), 3i64);
    let fp1 = fast_hash_of_map(&map);

    // Same keys as the first map (different values).
    let mut map = HashableHashMap::new();
    map.insert(String::from("one"), 4i64);
    map.insert(String::from("two"), 5i64);
    map.insert(String::from("three"), 6i64);
    let fp2 = fast_hash_of_map(&map);

    // Same values as the first map (different keys).
    let mut map = HashableHashMap::new();
    map.insert(String::from("four"), 1i64);
    map.insert(String::from("five"), 2i64);
    map.insert(String::from("six"), 3i64);
    let fp3 = fast_hash_of_map(&map);

    assert_ne!(fp1, fp2);
    assert_ne!(fp1, fp3);
    assert_ne!(fp2, fp3);
}

#[test]
fn lib_insertion_order_is_irrelevant() {
    let mut map = HashableHashMap::new();
    map.insert(String::from("one"), 1i64);
    map.insert(String::from("two"), 2i64);
    map.insert(String::from("three"), 3i64);
    let fp1 = fast_hash_of_map(&map);

    let mut map = HashableHashMap::new();
    map.insert(String::from("three"), 3i64);
    map.insert(String::from("one"), 1i64);
    map.insert(String::from("two"), 2i64);
    let fp2 = fast_hash_of_map(&map);

    assert_eq!(fp1, fp2);
}

#[test]
fn can_hash_map_of_maps() {
    // A reentrant (nested) hash computation must fall back to a private
    // buffer instead of panicking on the one already checked out.
    let mut pool = ScratchPool::new();
    let mut map: HashableHashMap<HashableHashMap<String, String>, String> =
        HashableHashMap::new();
    map.insert(
        {
            let mut map = HashableHashMap::new();
            map.insert(String::from("key"), String::from("value"));
            map
        },
        String::from("value"),
    );
    map.fingerprint_fast(&mut pool); // No assertion as this test is just checking for a panic.
}

#[test]
fn portable_map_hash_ignores_insertion_order() {
    let mut pool = ScratchPool::new();
    let mut a = HashableHashMap::new();
    a.insert(String::from("one"), 1i64);
    a.insert(String::from("two"), 2i64);
    let mut b = HashableHashMap::new();
    b.insert(String::from("two"), 2i64);
    b.insert(String::from("one"), 1i64);
    assert_eq!(a.fingerprint(&mut pool), b.fingerprint(&mut pool));
}

#[test]
fn portable_map_hash_separates_keys_and_values() {
    let mut pool = ScratchPool::new();
    let mut m1 = HashableHashMap::new();
    m1.insert(String::from("one"), 1i64);
    m1.insert(String::from("two"), 2i64);
    m1.insert(String::from("three"), 3i64);
    let mut m2 = HashableHashMap::new();
    m2.insert(String::from("one"), 4i64);
    m2.insert(String::from("two"), 5i64);
    m2.insert(String::from("three"), 6i64);
    let mut m3 = HashableHashMap::new();
    m3.insert(String::from("four"), 1i64);
    m3.insert(String::from("five"), 2i64);
    m3.insert(String::from("six"), 3i64);
    let fp1 = m1.fingerprint(&mut pool);
    let fp2 = m2.fingerprint(&mut pool);
    let fp3 = m3.fingerprint(&mut pool);
    assert_ne!(fp1, fp2);
    assert_ne!(fp1, fp3);
    assert_ne!(fp2, fp3);
}

#[test]
fn map_equality_is_order_independent() {
    let mut a = HashableHashMap::new();
    a.insert(String::from("one"), 1i64);
    a.insert(String::from("two"), 2i64);
    let mut b = HashableHashMap::new();
    b.insert(String::from("two"), 2i64);
    b.insert(String::from("one"), 1i64);
    assert!(a.equals(&b));
    assert!(b.equals(&a));
    let mut c = HashableHashMap::new();
    c.insert(String::from("one"), 1i64);
    c.insert(String::from("two"), 9i64);
    assert!(!a.equals(&c));
}

#[test]
fn equal_maps_hash_equally() {
    let mut pool = ScratchPool::new();
    let mut a = HashableHashMap::new();
    a.insert(String::from("k"), 10i64);
    a.insert(String::from("l"), 20i64);
    let mut b = HashableHashMap::new();
    b.insert(String::from("l"), 20i64);
    b.insert(String::from("k"), 10i64);
    assert!(a.equals(&b));
    assert_eq!(a.fingerprint(&mut pool), b.fingerprint(&mut pool));
    assert_eq!(a.fingerprint_fast(&mut pool), b.fingerprint_fast(&mut pool));
}

#[test]
fn map_hashing_twice_is_idempotent() {
    let mut pool = ScratchPool::new();
    let mut map = HashableHashMap::new();
    map.insert(String::from("one"), 1i64);
    assert_eq!(map.fingerprint(&mut pool), map.fingerprint(&mut pool));
    assert_eq!(
        map.fingerprint(&mut pool),
        map.fingerprint(&mut ScratchPool::new())
    );
    assert_eq!(map.fingerprint_fast(&mut pool), map.fingerprint_fast(&mut pool));
}

#[test]
fn insert_overwrites_existing_key() {
    let mut pool = ScratchPool::new();
    let mut a = HashableHashMap::new();
    assert_eq!(a.insert(String::from("one"), 1i64), None);
    assert_eq!(a.insert(String::from("one"), 7i64), Some(1i64));
    assert_eq!(a.len(), 1);
    assert_eq!(a.get(&String::from("one")), Some(&7i64));
    assert_eq!(a.get(&String::from("two")), None);
    let mut b = HashableHashMap::new();
    b.insert(String::from("one"), 7i64);
    assert!(a.equals(&b));
    assert_eq!(a.fingerprint(&mut pool), b.fingerprint(&mut pool));
}

#[test]
fn empty_maps_hash_equally() {
    let mut pool = ScratchPool::new();
    let a: HashableHashMap<String, i64> = HashableHashMap::new();
    let b: HashableHashMap<String, i64> = HashableHashMap::new();
    assert_eq!(a.len(), 0);
    assert!(!a.contains_key(&String::from("one")));
    assert_eq!(a.fingerprint(&mut pool), b.fingerprint(&mut pool));
}

#[test]
fn map_remove_restores_previous_hash() {
    let mut pool = ScratchPool::new();
    let mut a = HashableHashMap::new();
    a.insert(String::from("one"), 1i64);
    let before = a.fingerprint(&mut pool);
    a.insert(String::from("two"), 2i64);
    assert_eq!(a.remove(&String::from("two")), Some(2i64));
    assert_eq!(a.remove(&String::from("two")), None);
    assert_eq!(a.fingerprint(&mut pool), before);
    assert!(!a.is_empty());
    assert_eq!(a.remove(&String::from("one")), Some(1i64));
    assert!(a.is_empty());
}
