//! Basic slot map tests.
use atomic_slotmap::{AtomicSlotMap, DefaultKey};
use std::sync::atomic::{AtomicUsize, Ordering};
use std::sync::Arc;

/// Tracks the amount of drops that happen on this value.
#[derive(Clone, Default)]
struct DropCounter {
    counter: Arc<AtomicUsize>,
}

impl DropCounter {
    fn get(&self) -> usize {
        self.counter.load(Ordering::Relaxed)
    }
}

impl Drop for DropCounter {
    fn drop(&mut self) {
        self.counter.fetch_add(1, Ordering::Relaxed);
    }
}

#[test]
fn check_drops() {
    let drops = DropCounter::default();

    {
        let mut sm = AtomicSlotMap::new();
        let mut sm_keys = Vec::new();
        for _ in 0..1000 {
            sm_keys.push(sm.insert(drops.clone()));
        }

        // Remove even keys (i.e. half of the keys)
        for i in (0..1000).filter(|i| i % 2 == 0) {
            sm.remove(sm_keys[i]);
        }

        // Should only have dropped 500 so far
        assert_eq!(drops.get(), 500);
    };

    // Now all items should have been dropped exactly once.
    assert_eq!(drops.get(), 1000);
}

#[test]
fn explicit_teardown_drops_every_value_once() {
    let drops = DropCounter::default();
    let mut sm = AtomicSlotMap::new();
    for _ in 0..40 {
        sm.insert(drops.clone());
    }
    let first = sm.insert(drops.clone());
    sm.remove(first);
    assert_eq!(drops.get(), 1);
    sm.drop();
    assert_eq!(drops.get(), 41);
    assert_eq!(sm.capacity(), 0);
    assert_eq!(sm.lossy_len(), 0);
}

#[test]
fn check_drops_with_multiple_guards() {
    let drops = DropCounter::default();
    let mut sm = AtomicSlotMap::new();

    let key = sm.insert(drops.clone());

    let guard1 = sm.get(key).unwrap();
    let guard2 = sm.get(key).unwrap();

    // held alive by the slotmap itself
    assert_eq!(drops.get(), 0);

    guard1.drop(&mut sm);
    guard2.drop(&mut sm);

    // still held alive by the slotmap itself
    assert_eq!(drops.get(), 0);

    let guard1 = sm.get(key).unwrap();
    let guard2 = sm.get(key).unwrap();

    assert!(sm.remove(key));

    // held alive by guard 1 2
    assert_eq!(drops.get(), 0);

    guard1.drop(&mut sm);

    // held alive by guard 2
    assert_eq!(drops.get(), 0);

    guard2.drop(&mut sm);

    assert_eq!(drops.get(), 1);
}

#[test]
fn check_slot_reusability() {
    // just to cover Default impl, should be equivalent to AtomicSlotMap::new
    let mut sm: AtomicSlotMap<DefaultKey, i32> = AtomicSlotMap::default();

    let mut first_key = DefaultKey::null();

    assert_eq!(
        sm.try_insert_with_key(|key| {
            first_key = key;
            Err(())
        }),
        Err(())
    );

    assert!(sm.lossy_is_empty());

    // the closure shouldn't have provided a null key
    assert!(!first_key.is_null());

    // the slotmap must have resized to somehow acquire the key to provide for the closure
    let cap = sm.capacity();
    assert_ne!(cap, 0);

    let key = sm.insert(123);

    // the value should reuse the first key, and the slotmap shouldnt resize
    assert_eq!(key, first_key);
    let guard = sm.get(key);
    assert_eq!(guard.as_ref().map(|g| *g.deref(&sm)), Some(123));
    guard.unwrap().drop(&mut sm);
    assert_eq!(cap, sm.capacity());
    assert_eq!(sm.lossy_len(), 1);

    sm.remove(key);

    assert!(sm.lossy_is_empty());
    assert!(sm.get(key).is_none());

    // the value should reuse the first key, and the slotmap shouldnt resize
    let key = sm.insert(456);
    let guard = sm.get(key);
    assert_eq!(guard.as_ref().map(|g| *g.deref(&sm)), Some(456));
    assert_eq!(cap, sm.capacity());
    assert_eq!(sm.lossy_len(), 1);
}

#[test]
fn check_lossy_methods() {
    // under exclusive access the lossy iter is predictable
    let mut sm = AtomicSlotMap::with_capacity(4);
    let cap1 = sm.capacity();
    assert!(cap1 >= 4);

    let _k1 = sm.insert(10);
    let _k2 = sm.insert(20);
    let _k3 = sm.insert(30);

    assert_eq!(sm.lossy_iter().count(&mut sm), 3);
    assert!(!sm.lossy_is_empty());

    // shouldn't have resized
    assert_eq!(sm.capacity(), cap1);

    sm.reserve(50);
    let cap2 = sm.capacity();
    assert_ne!(cap2, cap1);
    assert!(cap2 >= 53);

    for i in 0..50 {
        let _ = sm.insert(i);
    }

    assert_eq!(sm.capacity(), cap2);
}

#[test]
fn test_guards_and_contains() {
    // just to cover with_key, it shouldnt make a difference
    let mut sm: AtomicSlotMap<DefaultKey, i32> = AtomicSlotMap::with_key();
    let k1 = sm.insert(42);

    assert!(sm.contains_key(k1));
    assert!(!sm.contains_key(DefaultKey::null()));

    {
        let owning_guard = sm.get_owning(k1).unwrap();
        assert_eq!(*owning_guard.deref(&sm), 42);
        assert_eq!(owning_guard.as_ref(&sm), &42);
        assert_eq!(owning_guard.key(), k1);

        let owning_clone = owning_guard.clone(&mut sm);
        assert_eq!(*owning_clone.deref(&sm), 42);
        assert_eq!(owning_clone.as_ref(&sm), &42);
        assert_eq!(owning_clone.key(), k1);

        let normal_guard = sm.get(k1).unwrap();
        assert_eq!(*normal_guard.deref(&sm), 42);
        assert_eq!(normal_guard.as_ref(&sm), &42);
        assert_eq!(normal_guard.key(), k1);

        owning_guard.drop(&mut sm);
        owning_clone.drop(&mut sm);
        normal_guard.drop(&mut sm);
    }

    sm.remove(k1);

    assert!(!sm.contains_key(k1));
    assert!(sm.get(k1).is_none());
    assert!(sm.get_owning(k1).is_none());
}

#[test]
fn test_fmt() {
    let mut sm = AtomicSlotMap::new();

    let key = sm.insert("hi");

    let guard = sm.get(key).unwrap();
    assert_eq!(format!("{}", guard.as_ref(&sm)), "hi");
    assert_eq!(format!("{:?}", guard.as_ref(&sm)), "\"hi\"");

    let guard = sm.get_owning(key).unwrap();
    assert_eq!(format!("{}", guard.as_ref(&sm)), "hi");
    assert_eq!(format!("{:?}", guard.as_ref(&sm)), "\"hi\"");
}
