//! The examples of the documentation, a comparison with a hash map, and the edges of the map.
use atomic_slotmap::{AtomicSlotMap, DefaultKey, Key, KeyData, KeyDataRead};
use std::collections::HashMap;
use std::rc::Rc;

#[test]
fn with_capacity_and_key_allocates_one_chunk_for_four() {
    let mut messages: AtomicSlotMap<DefaultKey, &str> = AtomicSlotMap::with_capacity_and_key(4);
    messages.insert("Welcome");
    messages.insert("Good day");
    messages.insert("Hello");
    messages.insert("Bye");

    // chunks start from `32` and then scale by 4
    assert_eq!(messages.capacity(), 32);
}

#[test]
fn capacity_covers_what_was_asked_for() {
    let sm: AtomicSlotMap<DefaultKey, f64> = AtomicSlotMap::with_capacity(50);
    assert_eq!(sm.capacity(), 32 + 128);
    let sm: AtomicSlotMap<DefaultKey, u8> = AtomicSlotMap::with_capacity(0);
    assert_eq!(sm.capacity(), 0);
    for n in [1, 32, 33, 160, 161, 672, 673] {
        let sm: AtomicSlotMap<DefaultKey, u8> = AtomicSlotMap::with_capacity(n);
        assert!(sm.capacity() >= n);
    }
}

#[test]
fn contains_key_until_removed() {
    let mut sm = AtomicSlotMap::new();
    let key = sm.insert(42);
    assert_eq!(sm.contains_key(key), true);
    sm.remove(key);
    assert_eq!(sm.contains_key(key), false);
}

#[test]
fn insert_with_key_stores_its_own_key() {
    let mut sm = AtomicSlotMap::new();
    let key = sm.insert_with_key(|k| (k, 20));
    let guard = sm.get(key).unwrap();
    assert_eq!(guard.deref(&sm), &(key, 20));
}

#[test]
fn try_insert_with_key_stores_or_gives_the_error_back() {
    let mut sm: AtomicSlotMap<DefaultKey, (DefaultKey, i32)> = AtomicSlotMap::new();
    let key = sm.try_insert_with_key::<_, ()>(|k| Ok((k, 20))).unwrap();
    let guard = sm.get(key).unwrap();
    assert_eq!(guard.deref(&sm), &(key, 20));
    guard.drop(&mut sm);

    let refused = sm.try_insert_with_key(|k| Err((k, "no")));
    let (refused_key, reason) = refused.unwrap_err();
    assert_eq!(reason, "no");
    assert!(!sm.contains_key(refused_key));
    assert_eq!(sm.lossy_len(), 1);
    assert_eq!(sm.insert((key, 21)), refused_key);
}

#[test]
fn a_guard_survives_removal() {
    let mut sm = AtomicSlotMap::new();
    let key = sm.insert("bar");

    let guard = sm.get(key).unwrap();
    assert_eq!(guard.deref(&sm), &"bar");

    assert_eq!(sm.remove(key), true);

    // guard is still valid. the value won't actually be dropped until this guard is dropped.
    assert_eq!(guard.deref(&sm), &"bar");
    assert_eq!(sm.remove(key), false);

    // no new guards can be created now that the value is removed
    assert!(sm.get(key).is_none());

    // the slot is not used while the guard is held
    let other = sm.insert("baz");
    assert_ne!(other.data().idx(), key.data().idx());
    assert_eq!(guard.deref(&sm), &"bar");
    guard.drop(&mut sm);
    let third = sm.insert("qux");
    assert_eq!(third.data().idx(), key.data().idx());
    assert_eq!(third.data().version(), key.data().version() + 2);
}

#[test]
fn reserve_makes_room() {
    let mut sm = AtomicSlotMap::new();
    sm.insert("foo");
    sm.reserve(32);
    assert!(sm.capacity() >= 33);
    assert_eq!(sm.capacity(), 160);
    sm.reserve(0);
    assert_eq!(sm.capacity(), 160);
}

#[test]
fn reserve_makes_room_beside_what_guards_hold() {
    let mut sm = AtomicSlotMap::new();
    let keys: Vec<DefaultKey> = (0..32).map(|i| sm.insert(i)).collect();
    let guards: Vec<_> = keys.iter().map(|key| sm.get(*key).unwrap()).collect();
    for key in &keys {
        assert!(sm.remove(*key));
    }
    assert_eq!((sm.lossy_len(), sm.capacity()), (0, 32));
    sm.reserve(32);
    let capacity = sm.capacity();
    assert_eq!(capacity, 160);
    for i in 0..32 {
        sm.insert(100 + i);
    }
    assert_eq!(sm.capacity(), capacity);
    for (i, guard) in guards.into_iter().enumerate() {
        assert_eq!(*guard.deref(&sm), i as i32);
        guard.drop(&mut sm);
    }
}

#[test]
fn reserve_counts_free_slots_as_room() {
    let mut sm = AtomicSlotMap::new();
    let keys: Vec<DefaultKey> = (0..32).map(|i| sm.insert(i)).collect();
    for key in &keys {
        sm.remove(*key);
    }
    sm.reserve(32);
    assert_eq!(sm.capacity(), 32);
    let guard_key = sm.insert(1);
    let guard = sm.get_owning(guard_key).unwrap();
    sm.remove(guard_key);
    sm.reserve(31);
    assert_eq!(sm.capacity(), 32);
    sm.reserve(32);
    assert_eq!(sm.capacity(), 160);
    sm.reserve(32);
    assert_eq!(sm.capacity(), 160);
    guard.drop(&mut sm);
}

#[test]
fn a_value_whose_guard_is_never_given_back_outlives_the_map() {
    let value = Rc::new(1);
    let mut sm = AtomicSlotMap::new();
    let kept = sm.insert(Rc::clone(&value));
    let held = sm.insert(Rc::clone(&value));
    sm.insert(Rc::clone(&value));
    let guard = sm.get(held).unwrap();
    sm.remove(held);
    assert!(sm.contains_key(kept));
    assert_eq!(Rc::strong_count(&value), 4);
    sm.drop();
    // the values of the two keys in the map are dropped, and the one that is held is not
    assert_eq!(Rc::strong_count(&value), 2);
    assert_eq!((sm.lossy_len(), sm.capacity()), (0, 0));
    assert_eq!(guard.key(), held);
}

#[test]
fn removed_elements_do_not_count() {
    let mut sm = AtomicSlotMap::with_capacity(10);
    sm.insert("len() counts actual elements, not capacity");
    let key = sm.insert("removed elements don't count either");
    sm.remove(key);
    assert_eq!(sm.lossy_len(), 1);
}

#[test]
fn empty_again_after_the_only_removal() {
    let mut sm = AtomicSlotMap::new();
    let key = sm.insert("dummy");
    assert_eq!(sm.lossy_is_empty(), false);
    sm.remove(key);
    assert_eq!(sm.lossy_is_empty(), true);
}

#[test]
fn a_map_does_not_allocate_below_its_capacity() {
    let mut sm = AtomicSlotMap::with_capacity(33);
    assert_eq!(sm.capacity(), 160);
    let keys: Vec<DefaultKey> = (0..160).map(|i| sm.insert(i)).collect();
    assert_eq!(sm.capacity(), 160);
    for key in &keys {
        sm.remove(*key);
    }
    for i in 0..160 {
        sm.insert(i);
    }
    assert_eq!(sm.capacity(), 160);
    sm.insert(160);
    assert_eq!(sm.capacity(), 672);
}

#[test]
fn a_removed_value_that_a_guard_holds_takes_room() {
    let mut sm = AtomicSlotMap::with_capacity(32);
    let keys: Vec<DefaultKey> = (0..32).map(|i| sm.insert(i)).collect();
    let guard = sm.get(keys[7]).unwrap();
    sm.remove(keys[7]);
    assert_eq!(sm.lossy_len(), 31);
    sm.insert(32);
    assert_eq!(sm.capacity(), 160);
    assert_eq!(guard.deref(&sm), &7);
}

#[test]
fn forged_and_null_keys_lead_nowhere() {
    let mut sm = AtomicSlotMap::new();
    let key = sm.insert(1);
    assert!(sm.get(DefaultKey::null()).is_none());
    assert!(!sm.remove(DefaultKey::null()));
    for word in [0, 1, u64::MAX, (3 << 32), (1 << 32) | 1] {
        let forged = DefaultKey::from_data(KeyData::from_ffi(word));
        if forged != key {
            assert!(!sm.contains_key(forged));
            assert!(sm.get(forged).is_none());
            assert!(sm.get_owning(forged).is_none());
            assert!(!sm.remove(forged));
        }
    }
    assert!(sm.contains_key(key));
}

#[test]
fn iteration_gives_keys_and_guards_in_slot_order() {
    let mut sm = AtomicSlotMap::new();
    let keys: Vec<DefaultKey> = (0..40).map(|i| sm.insert(i * 10)).collect();
    sm.remove(keys[0]);
    sm.remove(keys[17]);
    let mut iter = sm.lossy_iter();
    let mut met = Vec::new();
    while let Some((key, guard)) = iter.next(&mut sm) {
        assert_eq!(guard.key(), key);
        met.push((key, *guard.deref(&sm)));
        guard.drop(&mut sm);
    }
    let expected: Vec<(DefaultKey, i32)> =
        (1..40).filter(|&i| i != 17).map(|i| (keys[i as usize], i * 10)).collect();
    assert_eq!(met, expected);
    assert!(iter.next(&mut sm).is_none());
    assert_eq!(sm.lossy_iter().count(&mut sm), 38);
    let all = sm.lossy_iter().collect(&mut sm);
    let collected: Vec<(DefaultKey, i32)> =
        all.iter().map(|(key, guard)| (*key, *guard.deref(&sm))).collect();
    assert_eq!(collected, expected);
    for (key, guard) in all {
        // the guards are held until here
        sm.remove(key);
        assert_eq!(guard.key(), key);
        guard.drop(&mut sm);
    }
    assert!(sm.lossy_is_empty());
    assert_eq!(sm.insert(0).data().idx(), 39);
}

#[test]
fn clones_of_a_guard_are_counted() {
    let mut sm = AtomicSlotMap::new();
    let key = sm.insert(String::from("kept"));
    let first = sm.get_owning(key).unwrap();
    let clones: Vec<_> = (0..5).map(|_| first.clone(&mut sm)).collect();
    sm.remove(key);
    first.drop(&mut sm);
    for clone in clones {
        assert_eq!(clone.deref(&sm), "kept");
        clone.drop(&mut sm);
    }
    assert_eq!(sm.insert(String::from("next")).data().idx(), key.data().idx());
}

/// Does the same to a slot map and a hash map, and says whether they agree.
fn slotmap_equiv_hashmap(operations: Vec<(u8, u32)>) -> bool {
    let mut hm = HashMap::new();
    let mut hm_keys = Vec::new();
    let mut unique_key = 0u32;
    let mut sm: AtomicSlotMap<DefaultKey, u32> = AtomicSlotMap::new();
    let mut sm_keys = Vec::new();

    let num_ops = 3;

    for (op, val) in operations {
        match op % num_ops {
            // Insert.
            0 => {
                hm.insert(unique_key, val);
                hm_keys.push(unique_key);
                unique_key += 1;

                sm_keys.push(sm.insert(val));
            }

            // Delete.
            1 => {
                if hm_keys.is_empty() {
                    continue;
                }

                let idx = val as usize % hm_keys.len();

                if hm.remove(&hm_keys[idx]).is_some() != sm.remove(sm_keys[idx]) {
                    return false;
                }
            }

            // Access.
            2 => {
                if hm_keys.is_empty() {
                    continue;
                }
                let idx = val as usize % hm_keys.len();
                let (hm_key, sm_key) = (&hm_keys[idx], sm_keys[idx]);

                let guard = sm.get(sm_key);
                if hm.contains_key(hm_key) != sm.contains_key(sm_key)
                    || hm.get(hm_key) != guard.as_ref().map(|guard| guard.deref(&sm))
                {
                    return false;
                }
                if let Some(guard) = guard {
                    guard.drop(&mut sm);
                }
            }

            _ => unreachable!(),
        }
        if hm.len() != sm.lossy_len() {
            return false;
        }
    }

    true
}

#[test]
fn qc_slotmap_equiv_hashmap() {
    let mut seed: u64 = 1;
    for len in 0..200 {
        let mut operations = Vec::new();
        for _ in 0..len {
            seed = seed.wrapping_mul(6364136223846793005).wrapping_add(1442695040888963407);
            operations.push(((seed >> 56) as u8, (seed >> 20) as u32));
        }
        assert!(slotmap_equiv_hashmap(operations));
    }
}
