use hashable::{Hashable, HashableHashSet, ScratchPool};

fn fast_hash_of_set(s: &HashableHashSet<String>) -> u64 {
    let mut pool = ScratchPool::new();
    s.fingerprint_fast(&mut pool)
}

#[test]
fn different_hash_if_items_differ() {
    let mut set = HashableHashSet::new();
    set.insert(String::from("one"));
    set.insert(String::from("two"));
    set.insert(String::from("three"));
    let fp1 = fast_hash_of_set(&set);

    let mut set = HashableHashSet::new();
    set.insert(String::from("four"));
    set.insert(String::from("five"));
    set.insert(String::from("six"));
    let fp2 = fast_hash_of_set(&set);

    assert_ne!(fp1, fp2);
}

#[test]
fn insertion_order_is_irrelevant() {
    let mut set = HashableHashSet::new();
    set.insert(String::from("one"));
    set.insert(String::from("two"));
    set.insert(String::from("three"));
    let fp1 = fast_hash_of_set(&set);

    let mut set = HashableHashSet::new();
    set.insert(String::from("three"));
    set.insert(String::from("one"));
    set.insert(String::from("two"));
    let fp2 = fast_hash_of_set(&set);

    assert_eq!(fp1, fp2);
}

#[test]
fn can_hash_set_of_sets() {
    // A reentrant (nested) hash computation must fall back to a private
    // buffer instead of panicking on the one already checked out.
    let mut pool = ScratchPool::new();
    let mut set: HashableHashSet<HashableHashSet<String>> = HashableHashSet::new();
    set.insert({
        let mut set = HashableHashSet::new();
        set.insert(String::from("value"));
        set
    });
    set.fingerprint_fast(&mut pool); // No assertion as this test is just checking for a panic.
}

#[test]
fn portable_hash_ignores_insertion_order() {
    let mut pool = ScratchPool::new();
    let mut a = HashableHashSet::new();
    a.insert(String::from("one"));
    a.insert(String::from("two"));
    a.insert(String::from("three"));
    let mut b = HashableHashSet::new();
    b.insert(String::from("three"));
    b.insert(String::from("one"));
    b.insert(String::from("two"));
    assert_eq!(a.fingerprint(&mut pool), b.fingerprint(&mut pool));
}

#[test]
fn portable_hash_discriminates_disjoint_sets() {
    let mut pool = ScratchPool::new();
    let mut a = HashableHashSet::new();
    a.insert(String::from("one"));
    a.insert(String::from("two"));
    let mut b = HashableHashSet::new();
    b.insert(String::from("four"));
    b.insert(String::from("five"));
    assert_ne!(a.fingerprint(&mut pool), b.fingerprint(&mut pool));
}

#[test]
fn equality_is_order_independent() {
    let mut a = HashableHashSet::new();
    a.insert(String::from("one"));
    a.insert(String::from("two"));
    a.insert(String::from("three"));
    let mut b = HashableHashSet::new();
    b.insert(String::from("two"));
    b.insert(String::from("three"));
    b.insert(String::from("one"));
    assert!(a.equals(&b));
    assert!(b.equals(&a));
    let mut c = HashableHashSet::new();
    c.insert(String::from("one"));
    assert!(!a.equals(&c));
}

#[test]
fn equal_sets_hash_equally() {
    let mut pool = ScratchPool::new();
    let mut a = HashableHashSet::new();
    a.insert(String::from("x"));
    a.insert(String::from("y"));
    let mut b = HashableHashSet::new();
    b.insert(String::from("y"));
    b.insert(String::from("x"));
    assert!(a.equals(&b));
    assert_eq!(a.fingerprint(&mut pool), b.fingerprint(&mut pool));
    assert_eq!(a.fingerprint_fast(&mut pool), b.fingerprint_fast(&mut pool));
}

#[test]
fn hashing_twice_is_idempotent() {
    let mut pool = ScratchPool::new();
    let mut set = HashableHashSet::new();
    set.insert(String::from("one"));
    set.insert(String::from("two"));
    // Second call goes through the same (shared) pool buffer.
    assert_eq!(set.fingerprint(&mut pool), set.fingerprint(&mut pool));
    assert_eq!(set.fingerprint_fast(&mut pool), set.fingerprint_fast(&mut pool));
    // A fresh pool (the fallback-style private buffer) changes nothing.
    assert_eq!(
        set.fingerprint(&mut pool),
        set.fingerprint(&mut ScratchPool::new())
    );
}

#[test]
fn nested_set_hash_is_deterministic() {
    let mut pool = ScratchPool::new();
    let mut outer: HashableHashSet<HashableHashSet<String>> = HashableHashSet::new();
    let mut inner = HashableHashSet::new();
    inner.insert(String::from("value"));
    outer.insert(inner);
    let fp1 = outer.fingerprint(&mut pool);
    let fp2 = outer.fingerprint(&mut pool);
    assert_eq!(fp1, fp2);
    let fp3 = outer.fingerprint_fast(&mut pool);
    let fp4 = outer.fingerprint_fast(&mut pool);
    assert_eq!(fp3, fp4);
}

#[test]
fn duplicate_inserts_collapse() {
    let mut pool = ScratchPool::new();
    let mut a = HashableHashSet::new();
    assert!(a.insert(String::from("one")));
    assert!(!a.insert(String::from("one")));
    assert_eq!(a.len(), 1);
    let mut b = HashableHashSet::new();
    b.insert(String::from("one"));
    assert_eq!(a.fingerprint(&mut pool), b.fingerprint(&mut pool));
    assert!(a.contains(&String::from("one")));
    assert!(!a.contains(&String::from("two")));
}

#[test]
fn empty_sets_hash_equally() {
    let mut pool = ScratchPool::new();
    let a: HashableHashSet<String> = HashableHashSet::new();
    let b: HashableHashSet<String> = HashableHashSet::new();
    assert_eq!(a.len(), 0);
    assert_eq!(a.fingerprint(&mut pool), b.fingerprint(&mut pool));
}

#[test]
fn from_items_collapses_and_matches_inserts() {
    let mut pool = ScratchPool::new();
    let items = vec![
        String::from("one"),
        String::from("two"),
        String::from("one"),
    ];
    let s = HashableHashSet::from_items(items);
    assert_eq!(s.len(), 2);
    let mut t = HashableHashSet::new();
    t.insert(String::from("two"));
    t.insert(String::from("one"));
    assert!(s.equals(&t));
    assert_eq!(s.fingerprint(&mut pool), t.fingerprint(&mut pool));
}

#[test]
fn integer_sets_work_too() {
    let mut pool = ScratchPool::new();
    let mut a: HashableHashSet<u64> = HashableHashSet::new();
    a.insert(3u64);
    a.insert(1u64);
    a.insert(2u64);
    let mut b: HashableHashSet<u64> = HashableHashSet::new();
    b.insert(1u64);
    b.insert(2u64);
    b.insert(3u64);
    assert!(a.equals(&b));
    assert_eq!(a.fingerprint(&mut pool), b.fingerprint(&mut pool));
    let mut c: HashableHashSet<u64> = HashableHashSet::new();
    c.insert(4u64);
    assert_ne!(a.fingerprint(&mut pool), c.fingerprint(&mut pool));
}

#[test]
fn remove_restores_previous_hash() {
    let mut pool = ScratchPool::new();
    let mut a = HashableHashSet::new();
    a.insert(String::from("one"));
    let before = a.fingerprint(&mut pool);
    a.insert(String::from("two"));
    assert!(a.remove(&String::from("two")));
    assert!(!a.remove(&String::from("two")));
    assert_eq!(a.fingerprint(&mut pool), before);
    assert!(!a.is_empty());
    assert!(a.remove(&String::from("one")));
    assert!(a.is_empty());
}
