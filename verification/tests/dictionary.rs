//! Behaviour of the collision-bucket dictionary over the object registry.

use hle_kit::ns_dictionary::DictionaryHostObject;
use hle_kit::objc::{Objects, CLASS_OBJECT, CLASS_STRING, NIL};

/// A string-like object: its hash and equality token come from its
/// contents, so two allocations with the same token are equal without
/// being the same handle.
fn new_string(o: &mut Objects, hash: u64, token: u64) -> usize {
    o.alloc_with(CLASS_STRING, hash, token)
}

fn new_object(o: &mut Objects) -> usize {
    o.alloc_plain(CLASS_OBJECT)
}

#[test]
fn insert_then_lookup_same_handle() {
    let mut o = Objects::new();
    let mut d = DictionaryHostObject::new();
    let k = new_string(&mut o, 7, 100);
    let v = new_object(&mut o);
    d.insert(&mut o, k, v, true);
    assert_eq!(d.lookup(&o, k), v);
    assert_eq!(d.count, 1);
}

#[test]
fn lookup_with_equal_probe() {
    // an equal-by-value probe, allocated separately, finds the entry
    let mut o = Objects::new();
    let mut d = DictionaryHostObject::new();
    let k = new_string(&mut o, 7, 100);
    let v = new_object(&mut o);
    d.insert(&mut o, k, v, true);
    let probe = new_string(&mut o, 7, 100);
    assert_eq!(d.lookup(&o, probe), v);
}

#[test]
fn lookup_of_nil_finds_nothing() {
    let mut o = Objects::new();
    let mut d = DictionaryHostObject::new();
    let k = new_string(&mut o, 0, 100);
    let v = new_object(&mut o);
    d.insert(&mut o, k, v, true);
    // nil hashes to zero, the same bucket, but equals nothing
    assert_eq!(d.lookup(&o, NIL), NIL);
}

#[test]
fn scenario_string_keyed_overwrite() {
    // insert ("a", 1), ("b", 2), ("a", 3): two distinct keys remain and the
    // later value under "a" wins
    let mut o = Objects::new();
    let mut d = DictionaryHostObject::new();
    let key_a = new_string(&mut o, 11, 201);
    let key_b = new_string(&mut o, 22, 202);
    let v1 = new_object(&mut o);
    let v2 = new_object(&mut o);
    let v3 = new_object(&mut o);
    d.insert(&mut o, key_a, v1, true);
    d.insert(&mut o, key_b, v2, true);
    let key_a_again = new_string(&mut o, 11, 201);
    d.insert(&mut o, key_a_again, v3, true);
    assert_eq!(d.count, 2);
    assert_eq!(d.lookup(&o, key_a), v3);
    assert_eq!(d.lookup(&o, key_b), v2);
    let key_c = new_string(&mut o, 33, 203);
    assert_eq!(d.lookup(&o, key_c), NIL);
}

#[test]
fn scenario_forced_collision() {
    // "x" and "y" share a hash code but are not equal: both are stored in
    // one bucket and retrieved independently
    let mut o = Objects::new();
    let mut d = DictionaryHostObject::new();
    let key_x = new_string(&mut o, 5, 301);
    let key_y = new_string(&mut o, 5, 302);
    let vx = new_object(&mut o);
    let vy = new_object(&mut o);
    d.insert(&mut o, key_x, vx, false);
    d.insert(&mut o, key_y, vy, false);
    assert_eq!(d.count, 2);
    assert_eq!(d.lookup(&o, key_x), vx);
    assert_eq!(d.lookup(&o, key_y), vy);
    // overwriting "x" leaves "y" retrievable
    let vx2 = new_object(&mut o);
    d.insert(&mut o, key_x, vx2, false);
    assert_eq!(d.count, 2);
    assert_eq!(d.lookup(&o, key_x), vx2);
    assert_eq!(d.lookup(&o, key_y), vy);
}

#[test]
fn overwrite_releases_old_value_exactly_once() {
    let mut o = Objects::new();
    let mut d = DictionaryHostObject::new();
    let k = new_string(&mut o, 9, 400);
    let v1 = new_object(&mut o);
    let v2 = new_object(&mut o);
    d.insert(&mut o, k, v1, true);
    assert_eq!(o.refcount(v1), 2);  // the caller's and the table's
    let count_before = d.count;
    d.insert(&mut o, k, v2, true);
    assert_eq!(d.count, count_before);
    assert_eq!(o.refcount(v1), 1);  // released exactly once
    assert_eq!(o.refcount(v2), 2);
    assert_eq!(d.lookup(&o, k), v2);
}

#[test]
fn copy_key_insulates_from_mutation() {
    // with copy_key set, mutating the original key object afterwards does
    // not disturb the stored entry
    let mut o = Objects::new();
    let mut d = DictionaryHostObject::new();
    let k = new_string(&mut o, 13, 500);
    let v = new_object(&mut o);
    d.insert(&mut o, k, v, true);
    // the guest mutates the original key object in place
    o.set_behaviour(k, 99, 999);
    // a probe carrying the key's original behaviour still finds the value
    let probe = new_string(&mut o, 13, 500);
    assert_eq!(d.lookup(&o, probe), v);
    // while the mutated original no longer matches
    assert_eq!(d.lookup(&o, k), NIL);
}

#[test]
fn retained_key_is_not_insulated() {
    // without copy_key the table stores the key handle itself, so mutating
    // it moves the entry out of reach of its old value
    let mut o = Objects::new();
    let mut d = DictionaryHostObject::new();
    let k = new_string(&mut o, 13, 500);
    let v = new_object(&mut o);
    d.insert(&mut o, k, v, false);
    o.set_behaviour(k, 99, 999);
    let probe = new_string(&mut o, 13, 500);
    assert_eq!(d.lookup(&o, probe), NIL);
}

#[test]
fn count_tracks_distinct_keys() {
    let mut o = Objects::new();
    let mut d = DictionaryHostObject::new();
    // two equal keys (same token), two distinct ones, with a shared hash
    let k1 = new_string(&mut o, 1, 601);
    let k2 = new_string(&mut o, 1, 602);
    let k1_again = new_string(&mut o, 1, 601);
    let k3 = new_string(&mut o, 2, 603);
    let v = new_object(&mut o);
    d.insert(&mut o, k1, v, true);
    assert_eq!(d.count, 1);
    d.insert(&mut o, k2, v, true);
    assert_eq!(d.count, 2);
    d.insert(&mut o, k1_again, v, true);
    assert_eq!(d.count, 2);
    d.insert(&mut o, k3, v, true);
    assert_eq!(d.count, 3);
    assert_eq!(d.iter_keys().len(), 3);
}

#[test]
fn release_all_is_exact() {
    // whatever the collision layout, releasing the table gives up exactly
    // one reference per stored key and one per stored value
    let mut o = Objects::new();
    let mut d = DictionaryHostObject::new();
    let k1 = new_string(&mut o, 4, 701);
    let k2 = new_string(&mut o, 4, 702);  // collides with k1
    let k3 = new_string(&mut o, 8, 703);
    let v1 = new_object(&mut o);
    let v2 = new_object(&mut o);
    d.insert(&mut o, k1, v1, false);
    d.insert(&mut o, k2, v2, false);
    d.insert(&mut o, k3, v1, false);  // v1 stored twice
    assert_eq!(o.refcount(k1), 2);
    assert_eq!(o.refcount(v1), 3);
    assert_eq!(o.refcount(v2), 2);
    d.release(&mut o);
    assert_eq!(o.refcount(k1), 1);
    assert_eq!(o.refcount(k2), 1);
    assert_eq!(o.refcount(k3), 1);
    assert_eq!(o.refcount(v1), 1);
    assert_eq!(o.refcount(v2), 1);
}

#[test]
fn scenario_batched_enumeration() {
    // five entries, enumerated in chunks of two: five keys in all, no
    // duplicates, and the final call hands back nothing
    let mut o = Objects::new();
    let mut d = DictionaryHostObject::new();
    let mut keys = Vec::new();
    for i in 0..5u64 {
        // two of the five share a bucket
        let hash = if i < 2 { 40 } else { 50 + i };
        let k = new_string(&mut o, hash, 800 + i);
        let v = new_object(&mut o);
        d.insert(&mut o, k, v, false);
        keys.push(k);
    }
    assert_eq!(d.count, 5);
    let mut cursor: u32 = 0;
    let mut seen: Vec<usize> = Vec::new();
    loop {
        let batch = d.count_by_enumerating_with_state(&mut cursor, 2);
        if batch.is_empty() {
            break;
        }
        assert!(batch.len() <= 2);
        for k in batch {
            assert!(!seen.contains(&k), "duplicate key in enumeration");
            seen.push(k);
        }
    }
    assert_eq!(seen.len(), 5);
    for k in &keys {
        assert!(seen.contains(k));
    }
    // the cursor is exhausted: one more call still hands back nothing
    let last = d.count_by_enumerating_with_state(&mut cursor, 2);
    assert!(last.is_empty());
}

#[test]
fn iter_keys_is_stable_between_calls() {
    let mut o = Objects::new();
    let mut d = DictionaryHostObject::new();
    for i in 0..4u64 {
        let k = new_string(&mut o, 10 + i % 2, 900 + i);
        let v = new_object(&mut o);
        d.insert(&mut o, k, v, false);
    }
    let first = d.iter_keys();
    let second = d.iter_keys();
    assert_eq!(first, second);
}

#[test]
fn builder_from_keys_and_objects() {
    let mut o = Objects::new();
    let ka = new_string(&mut o, 3, 1001);
    let kb = new_string(&mut o, 4, 1002);
    let ka_again = new_string(&mut o, 3, 1001);
    let va = new_object(&mut o);
    let vb = new_object(&mut o);
    let va2 = new_object(&mut o);
    let pairs = vec![(ka, va), (kb, vb), (ka_again, va2)];
    let d = hle_kit::ns_dictionary::dict_from_keys_and_objects(&mut o, &pairs);
    assert_eq!(d.count, 2);
    assert_eq!(d.lookup(&o, ka), va2);
    assert_eq!(d.lookup(&o, kb), vb);
}

#[test]
fn builder_init_with_objects_and_keys() {
    // the variadic constructor's argument order: first the object, then its
    // key, then further (object, key) pairs
    let mut o = Objects::new();
    let k1 = new_string(&mut o, 6, 1101);
    let k2 = new_string(&mut o, 7, 1102);
    let v1 = new_object(&mut o);
    let v2 = new_object(&mut o);
    let rest = vec![(v2, k2)];
    let d = hle_kit::ns_dictionary::init_with_objects_and_keys(&mut o, v1, k1, &rest);
    assert_eq!(d.count, 2);
    assert_eq!(d.lookup(&o, k1), v1);
    assert_eq!(d.lookup(&o, k2), v2);
}

#[test]
fn stored_keys_are_copies() {
    // the table holds an independent copy of a copied key: the original's
    // reference count is untouched
    let mut o = Objects::new();
    let mut d = DictionaryHostObject::new();
    let k = new_string(&mut o, 2, 1201);
    let v = new_object(&mut o);
    assert_eq!(o.refcount(k), 1);
    d.insert(&mut o, k, v, true);
    assert_eq!(o.refcount(k), 1);
    let stored = d.iter_keys();
    assert_eq!(stored.len(), 1);
    assert_ne!(stored[0], k);
    assert!(o.dynamic_equals(stored[0], k));
}

#[test]
fn retained_keys_are_shared() {
    let mut o = Objects::new();
    let mut d = DictionaryHostObject::new();
    let k = new_string(&mut o, 2, 1301);
    let v = new_object(&mut o);
    d.insert(&mut o, k, v, false);
    assert_eq!(o.refcount(k), 2);
    let stored = d.iter_keys();
    assert_eq!(stored, vec![k]);
}
