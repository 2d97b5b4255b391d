//! What holds across operations, on chosen values.
use atomic_slotmap::protocol::{Action, Agent, Event, Lookup};
use atomic_slotmap::slot::MAX_REFCOUNT;
use atomic_slotmap::{AtomicSlotMap, DefaultKey, Key, KeyData, KeyDataRead};

type Model = AtomicSlotMap<DefaultKey, u32>;

/// Runs an agent alone until it is done.
fn alone(map: &mut Model, mut agent: Agent, mut payload: Option<u32>) -> Agent {
    while agent.action() != Action::Stop {
        let event = map.perform(agent.action(), false, &mut payload);
        agent = agent.resume(event);
    }
    agent
}

/// The keys and values in a map, in the order of the slots.
fn contents(map: &mut Model) -> Vec<(u64, u32)> {
    let mut iter = map.lossy_iter();
    let mut all = Vec::new();
    while let Some((key, guard)) = iter.next(map) {
        all.push((key.data().as_ffi(), *guard.deref(map)));
        guard.drop(map);
    }
    all
}

#[test]
fn keys_are_unique() {
    let mut sm = AtomicSlotMap::new();
    let mut given = Vec::new();
    for round in 0..50 {
        let keys: Vec<DefaultKey> = (0..5).map(|i| sm.insert(round * 10 + i)).collect();
        for key in &keys {
            given.push(key.data().as_ffi());
            sm.remove(*key);
        }
    }
    let count = given.len();
    given.sort();
    given.dedup();
    assert_eq!(given.len(), count);
    for word in given {
        assert!(!sm.contains_key(DefaultKey::from_data(KeyData::from_ffi(word))));
    }
}

#[test]
fn a_value_stays_until_its_key_is_removed() {
    let mut sm = AtomicSlotMap::new();
    let kept = sm.insert(1);
    for i in 0..100 {
        let other = sm.insert(i);
        let guard = sm.get(other).unwrap();
        sm.remove(other);
        guard.drop(&mut sm);
        sm.reserve(i as usize);
        let _ = sm.try_insert_with_key(|_| Err::<u32, ()>(()));
        let guard = sm.get(kept).unwrap();
        assert_eq!(*guard.deref(&sm), 1);
        guard.drop(&mut sm);
    }
    sm.remove(kept);
    assert!(sm.get(kept).is_none());
}

#[test]
fn a_value_stays_while_it_is_guarded() {
    let mut sm = AtomicSlotMap::new();
    let key = sm.insert(5);
    let first = sm.get(key).unwrap();
    let second = sm.get_owning(key).unwrap();
    sm.remove(key);
    for i in 0..100 {
        sm.insert(i);
    }
    first.drop(&mut sm);
    assert_eq!(*second.deref(&sm), 5);
    second.drop(&mut sm);
    assert_eq!(sm.insert(6).data().idx(), key.data().idx());
}

#[test]
fn a_guard_that_is_given_back_leaves_the_map_as_it_was() {
    let mut sm = AtomicSlotMap::new();
    let keys: Vec<DefaultKey> = (0..10).map(|i| sm.insert(i)).collect();
    sm.remove(keys[4]);
    let before = contents(&mut sm);
    for key in &keys {
        if let Some(guard) = sm.get(*key) {
            guard.drop(&mut sm);
        }
    }
    assert_eq!(contents(&mut sm), before);
    // the free slot is still the only one
    assert_eq!(sm.insert(10).data().idx(), 4);
    assert_eq!(sm.insert(11).data().idx(), 10);
}

#[test]
fn an_agent_alone_does_what_the_operation_does() {
    let mut one: Model = AtomicSlotMap::new();
    let mut two: Model = AtomicSlotMap::new();
    let mut keys: Vec<DefaultKey> = Vec::new();
    for i in 0..60u32 {
        let key = one.insert(i);
        let ended = alone(&mut two, Agent::insert(), Some(i));
        let expected =
            Agent::Inserted { idx: key.data().idx(), version: key.data().version() };
        assert_eq!(ended, expected);
        keys.push(key);
        if i % 3 == 0 {
            let victim = keys[(i / 2) as usize];
            let found = one.remove(victim);
            let ended = alone(&mut two, Agent::lookup(Lookup::Remove, victim.data()), None);
            assert_eq!(ended, Agent::Removed { found });
        }
        if i % 5 == 0 {
            let refused = one.try_insert_with_key(|_| Err::<u32, ()>(()));
            assert!(refused.is_err());
            assert_eq!(alone(&mut two, Agent::insert(), None), Agent::Refused);
        }
        if i % 7 == 0 {
            one.reserve(i as usize);
            assert_eq!(alone(&mut two, Agent::reserve(i as usize), None), Agent::Reserved);
        }
        for key in &keys {
            let found = one.contains_key(*key);
            let ended = alone(&mut two, Agent::lookup(Lookup::Contains, key.data()), None);
            assert_eq!(ended, Agent::Contained { found });
            let guard = one.get(*key);
            let ended = alone(&mut two, Agent::lookup(Lookup::Get, key.data()), None);
            match guard {
                Some(guard) => {
                    let (idx, version) = (key.data().idx(), key.data().version());
                    assert_eq!(ended, Agent::Guarding { idx, version });
                    assert_eq!(two.data_at(idx), Some(guard.deref(&one)));
                    guard.drop(&mut one);
                    assert_eq!(
                        alone(&mut two, Agent::release(key.data()), None),
                        Agent::Released
                    );
                }
                None => assert_eq!(ended, Agent::Missing),
            }
        }
        assert_eq!(one.lossy_len(), two.lossy_len());
        assert_eq!(contents(&mut one), contents(&mut two));
    }
}

#[test]
fn a_clone_is_counted_even_beyond_the_cap() {
    let mut sm: Model = AtomicSlotMap::new();
    let key = sm.insert(8);
    let guard = sm.get_owning(key).unwrap();
    let clone = guard.clone(&mut sm);
    assert_eq!(alone(&mut sm, Agent::clone_guard(key.data()), None), Agent::Cloned);
    sm.remove(key);
    guard.drop(&mut sm);
    clone.drop(&mut sm);
    // the clone that the agent made is left
    assert_eq!(sm.data_at(0), Some(&8));
    assert_eq!(alone(&mut sm, Agent::release(key.data()), None), Agent::Released);
    assert_eq!(sm.data_at(0), None);

    let agent = Agent::clone_guard(key.data());
    assert_eq!(agent.action(), Action::FetchAddRef { idx: 0 });
    assert_eq!(agent.resume(Event::Word { word: MAX_REFCOUNT }), Agent::Cloned);
    assert_eq!(agent.resume(Event::Word { word: MAX_REFCOUNT + 1 }), Agent::Overflowed);
}

#[test]
fn an_insertion_publishes_the_value_it_was_given() {
    let mut sm: Model = AtomicSlotMap::new();
    let mut agent = Agent::insert();
    let mut payload = Some(21);
    while !matches!(agent, Agent::VersionStore { .. }) {
        let event = sm.perform(agent.action(), false, &mut payload);
        agent = agent.resume(event);
        // another insertion and a removal come between any two steps
        let other = sm.insert(99);
        sm.remove(other);
    }
    let Agent::Inserted { idx, version } = alone(&mut sm, agent, payload) else {
        panic!("no insertion");
    };
    let key = DefaultKey::from_data(KeyData::new(idx, version));
    let guard = sm.get(key).unwrap();
    assert_eq!(*guard.deref(&sm), 21);
    guard.drop(&mut sm);
}

#[test]
fn a_slot_that_is_used_often_gives_new_keys() {
    let mut sm: Model = AtomicSlotMap::new();
    let first = sm.insert(0);
    sm.remove(first);
    for i in 1..100_000 {
        let key = sm.insert(i);
        assert_eq!((key.data().idx(), key.data().version()), (0, 2 * i + 1));
        assert!(!sm.contains_key(first));
        sm.remove(key);
    }
}

#[test]
fn the_last_of_two_references_drops_the_value() {
    let mut sm: Model = AtomicSlotMap::new();
    let key = sm.insert(3);
    // a lookup of an older version takes a reference, while the key is removed
    let mut stale = Agent::lookup(Lookup::Get, KeyData::new(0, 7));
    while !matches!(stale, Agent::RefCheck { .. }) {
        let event = sm.perform(stale.action(), false, &mut None);
        stale = stale.resume(event);
    }
    let removal = alone(&mut sm, Agent::lookup(Lookup::Remove, key.data()), None);
    assert_eq!(removal, Agent::Removed { found: true });
    // the removal was not the last, so the value is there until the lookup gives its reference back
    assert_eq!(sm.data_at(0), Some(&3));
    assert_eq!(alone(&mut sm, stale, None), Agent::Missing);
    assert_eq!(sm.data_at(0), None);
    assert!(sm.lossy_is_empty());
    assert_eq!(sm.insert(4).data().version(), 3);
}

#[test]
fn an_event_that_answers_nothing_changes_nothing() {
    let agent = Agent::PopLoad;
    assert_eq!(agent.resume(Event::Done), agent);
    assert_eq!(Agent::Missing.resume(Event::Swapped), Agent::Missing);
}

#[test]
fn a_key_is_contained_if_it_was_inserted_and_not_removed_since() {
    let mut sm = AtomicSlotMap::new();
    let mut inserted: Vec<DefaultKey> = Vec::new();
    let mut removed: Vec<DefaultKey> = Vec::new();
    let (mut insertions, mut removals) = (0, 0);
    for i in 0..120u32 {
        inserted.push(sm.insert(i));
        insertions += 1;
        if i % 2 == 1 {
            let victim = inserted[(i as usize * 7) % inserted.len()];
            let found = sm.remove(victim);
            assert_eq!(found, !removed.contains(&victim));
            if found {
                removals += 1;
                removed.push(victim);
            }
        }
        for key in &inserted {
            assert_eq!(sm.contains_key(*key), !removed.contains(key));
        }
        assert_eq!(sm.lossy_len(), insertions - removals);
    }
    assert_eq!(insertions, 120);
    assert!(removals > 0 && removals < 60);
}

#[test]
fn the_capacity_stays_while_no_more_values_are_stored() {
    let mut sm: Model = AtomicSlotMap::with_capacity(32);
    assert_eq!(sm.capacity(), 32);
    for round in 0..20 {
        let keys: Vec<DefaultKey> = (0..32).map(|i| sm.insert(round * 32 + i)).collect();
        assert_eq!(sm.capacity(), 32);
        for key in keys {
            sm.remove(key);
        }
    }
    let keys: Vec<DefaultKey> = (0..32).map(|i| sm.insert(i)).collect();
    let guard = sm.get(keys[0]).unwrap();
    sm.remove(keys[0]);
    assert_eq!(sm.capacity(), 32);
    // a value that has a guard is stored still
    sm.insert(99);
    assert_eq!(sm.capacity(), 32 + 128);
    guard.drop(&mut sm);
}

#[test]
fn key_data_with_equal_parts_is_equal() {
    assert_eq!(KeyData::new(7, 4), KeyData::new(7, 5));
    assert_ne!(KeyData::new(7, 5), KeyData::new(8, 5));
    assert_ne!(KeyData::new(7, 5), KeyData::new(7, 7));
}
