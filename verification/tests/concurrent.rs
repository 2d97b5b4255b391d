//! Operations beside each other: every order of their steps is run, within a bound on the number of
//! times that one operation interrupts another.
use atomic_slotmap::protocol::{Action, Agent, Event, Lookup};
use atomic_slotmap::{AtomicSlotMap, DefaultKey, Key, KeyData, KeyDataRead};
use std::sync::atomic::{AtomicUsize, Ordering};
use std::sync::Arc;

type Model<V> = AtomicSlotMap<DefaultKey, V>;

/// Tracks the amount of drops that happen on this value.
#[derive(Clone)]
struct DropCounter {
    val: u32,
    counter: Arc<AtomicUsize>,
}

impl Drop for DropCounter {
    fn drop(&mut self) {
        self.counter.fetch_add(1, Ordering::Relaxed);
    }
}

/// One operation after the other, each an agent.
struct Thread<V> {
    agent: Agent,
    payload: Option<V>,
    /// Whether a guard is given back at once.
    release: bool,
    /// What the value was, where a guard was had.
    seen: Option<V>,
    /// How the first operation ended.
    ended: Option<Agent>,
    /// The operations that are left.
    then: Vec<Agent>,
}

impl<V: Clone> Thread<V> {
    fn insert(value: V) -> Self {
        let agent = Agent::insert();
        Thread { agent, payload: Some(value), release: false, seen: None, ended: None, then: vec![] }
    }

    fn lookup(lookup: Lookup, key: DefaultKey, release: bool) -> Self {
        let agent = Agent::lookup(lookup, key.data());
        Thread { agent, payload: None, release, seen: None, ended: None, then: vec![] }
    }

    /// More operations, one after the other.
    fn then(self, then: Vec<Agent>) -> Self {
        Thread { then, ..self }
    }

    fn is_done(&self) -> bool {
        self.agent.action() == Action::Stop
    }

    /// Whether the next step would only find that a chunk is missing still.
    fn is_waiting(&self, map: &mut Model<V>) -> bool {
        match self.agent {
            Agent::Await { .. } => {
                map.perform(self.agent.action(), false, &mut None) == Event::Absent
            }
            _ => false,
        }
    }

    fn step(&mut self, map: &mut Model<V>) {
        let event = map.perform(self.agent.action(), false, &mut self.payload);
        self.agent = self.agent.resume(event);
        if self.is_done() {
            if self.ended.is_none() {
                self.ended = Some(self.agent);
            }
            if let Agent::Guarding { idx, version } = self.agent {
                self.seen = map.data_at(idx).cloned();
                if self.release {
                    self.agent = Agent::release(KeyData::new(idx, version));
                }
            }
        }
        if self.is_done() && !self.then.is_empty() {
            self.agent = self.then.remove(0);
        }
    }

    fn key(&self) -> DefaultKey {
        match self.ended {
            Some(Agent::Inserted { idx, version }) => {
                DefaultKey::from_data(KeyData::new(idx, version))
            }
            _ => panic!("no insertion"),
        }
    }

    fn removed(&self) -> bool {
        self.ended == Some(Agent::Removed { found: true })
    }
}

/// Runs the threads in every order with no more than `bound` interruptions, each time on a fresh map,
/// and returns the number of orders.
fn explore<V: Clone>(
    bound: Option<usize>,
    setup: impl Fn() -> (Model<V>, Vec<Thread<V>>),
    verdict: impl Fn(Model<V>, Vec<Thread<V>>),
) -> usize {
    let mut path: Vec<(usize, usize)> = Vec::new();
    let mut runs = 0;
    loop {
        let (mut map, mut threads) = setup();
        let mut depth = 0;
        let mut current: Option<usize> = None;
        let mut interruptions = 0;
        loop {
            let mut ready: Vec<usize> = Vec::new();
            for t in 0..threads.len() {
                if !threads[t].is_done() && !threads[t].is_waiting(&mut map) {
                    ready.push(t);
                }
            }
            if ready.is_empty() {
                break;
            }
            // the thread that ran last comes first, and going on with it is no interruption
            let goes_on = current.map_or(false, |t| ready.contains(&t));
            if goes_on {
                let t = current.unwrap();
                ready.retain(|&u| u != t);
                ready.insert(0, t);
                if bound.map_or(false, |b| interruptions >= b) {
                    ready.truncate(1);
                }
            }
            if depth == path.len() {
                path.push((0, ready.len()));
            }
            let (choice, _) = path[depth];
            if goes_on && choice > 0 {
                interruptions += 1;
            }
            depth += 1;
            threads[ready[choice]].step(&mut map);
            current = Some(ready[choice]);
        }
        assert!(threads.iter().all(|thread| thread.is_done()));
        verdict(map, threads);
        runs += 1;
        while let Some(&(choice, ready)) = path.last() {
            if choice + 1 < ready {
                let last = path.len() - 1;
                path[last].0 += 1;
                break;
            }
            path.pop();
        }
        if path.is_empty() {
            return runs;
        }
    }
}

fn read<V: Clone>(map: &mut Model<V>, key: DefaultKey) -> Option<V> {
    let guard = map.get(key)?;
    let value = guard.deref(map).clone();
    guard.drop(map);
    Some(value)
}

#[test]
fn concurrent_test_concurrent_insert() {
    let runs = explore(
        None,
        || {
            let counter = Arc::new(AtomicUsize::new(0));
            let v1 = DropCounter { val: 42, counter: Arc::clone(&counter) };
            let v2 = DropCounter { val: 24, counter };
            (AtomicSlotMap::new(), vec![Thread::insert(v1), Thread::insert(v2)])
        },
        |mut sm, threads| {
            let k1 = threads[0].key();
            let k2 = threads[1].key();

            assert_eq!(sm.lossy_len(), 2);
            let guard = sm.get(k1).unwrap();
            assert_eq!(guard.deref(&sm).val, 42);
            guard.drop(&mut sm);
            let guard = sm.get_owning(k2).unwrap();
            assert_eq!(guard.deref(&sm).val, 24);
            let counter = Arc::clone(&guard.deref(&sm).counter);
            guard.drop(&mut sm);

            sm.drop();

            assert_eq!(counter.load(Ordering::Relaxed), 2);
        },
    );
    assert!(runs > 1000);
}

#[test]
fn concurrent_test_concurrent_remove() {
    explore(
        None,
        || {
            let mut sm = AtomicSlotMap::new();
            let key = sm.insert(100);
            let threads = vec![
                Thread::lookup(Lookup::Remove, key, false),
                Thread::lookup(Lookup::Remove, key, false),
            ];
            (sm, threads)
        },
        |sm, threads| {
            assert!(threads[0].removed() ^ threads[1].removed()); // Exactly one removal should succeed.
            assert_eq!(sm.lossy_len(), 0);
        },
    );
}

#[test]
fn concurrent_test_concurrent_get_and_remove() {
    explore(
        None,
        || {
            let mut sm = AtomicSlotMap::new();
            let key = sm.insert(100);
            let threads = vec![
                Thread::lookup(Lookup::Get, key, true),
                Thread::lookup(Lookup::Remove, key, false),
            ];
            (sm, threads)
        },
        |sm, threads| {
            if let Some(val) = threads[0].seen {
                assert_eq!(val, 100);
            }
            assert_eq!(sm.lossy_len(), 0);
        },
    );
}

#[test]
fn concurrent_test_aba_free_list() {
    explore(
        None,
        || {
            let mut sm = AtomicSlotMap::new();
            let key1 = sm.insert(1);
            let key2 = sm.insert(2);

            sm.remove(key1);
            sm.remove(key2);
            (sm, vec![Thread::insert(3), Thread::insert(4)])
        },
        |mut sm, threads| {
            assert_eq!(sm.lossy_len(), 2);
            assert_eq!(read(&mut sm, threads[0].key()), Some(3));
            assert_eq!(read(&mut sm, threads[1].key()), Some(4));
        },
    );
}

#[test]
fn concurrent_test_hard_guard_drop_interference() {
    explore(
        Some(2),
        || {
            let mut sm = AtomicSlotMap::new();
            let key = sm.insert(77);

            // The first acquires a guard and immediately drops it, the second attempts to remove the
            // key, and the third attempts to read while the others do their stuff.
            let threads = vec![
                Thread::lookup(Lookup::Get, key, true),
                Thread::lookup(Lookup::Remove, key, false),
                Thread::lookup(Lookup::Get, key, true),
            ];
            (sm, threads)
        },
        |mut sm, threads| {
            // this is missing if the second happens to remove the key before
            if let Some(value) = threads[2].seen {
                assert_eq!(value, 77);
                let Some(Agent::Guarding { idx, version }) = threads[2].ended else {
                    panic!("a value without a guard");
                };
                assert_eq!((idx, version), (0, 1));
            }

            // Eventually, the element must be fully freed.
            assert_eq!(sm.lossy_len(), 0);
            let next = sm.insert(78);
            assert_eq!((next.data().idx(), next.data().version()), (0, 3));
        },
    );
}

#[test]
fn test_guard_send() {
    explore(
        Some(2),
        || {
            let mut sm = AtomicSlotMap::new();
            let key = sm.insert(77);

            // The first acquires a guard and immediately drops it, the second acquires a guard, clones
            // it, and drops the one that it has cloned.
            let threads = vec![
                Thread::lookup(Lookup::Contains, key, true)
                    .then(vec![Agent::lookup(Lookup::Get, key.data())]),
                Thread::lookup(Lookup::Get, key, false)
                    .then(vec![Agent::clone_guard(key.data()), Agent::release(key.data())]),
            ];
            (sm, threads)
        },
        |mut sm, threads| {
            let key = DefaultKey::from_data(KeyData::new(0, 1));
            assert_eq!(threads[0].ended, Some(Agent::Contained { found: true }));
            assert_eq!(threads[0].seen, Some(77));
            assert_eq!(threads[0].agent, Agent::Released);

            // the clone is held
            assert_eq!(threads[1].seen, Some(77));
            assert_eq!(threads[1].agent, Agent::Released);
            let Some(Agent::Guarding { idx, version }) = threads[1].ended else {
                panic!("no guard");
            };
            assert_eq!(DefaultKey::from_data(KeyData::new(idx, version)), key);
            assert_eq!(sm.data_at(idx), Some(&77));
            let guard = sm.get_owning(key).unwrap();

            assert_eq!(*guard.deref(&sm), 77);
            assert_eq!(guard.key(), key);
            assert_eq!(guard.as_ref(&sm), &77);
            guard.drop(&mut sm);

            assert_eq!(sm.lossy_len(), 1);
            assert!(sm.contains_key(key));

            sm.remove(key);

            assert!(sm.get(key).is_none());
            assert!(!sm.remove(key));
            assert!(!sm.contains_key(key));
            assert_eq!(sm.lossy_len(), 0);

            // the clone keeps the value until it is dropped
            assert_eq!(sm.data_at(idx), Some(&77));
            let mut last = Thread { agent: Agent::release(key.data()), ..Thread::insert(0) };
            while !last.is_done() {
                last.step(&mut sm);
            }
            assert_eq!(sm.data_at(idx), None);
            let next = sm.insert(78);
            assert_eq!((next.data().idx(), next.data().version()), (0, 3));
        },
    );
}

#[test]
fn loom_test_concurrent_insert() {
    explore(
        None,
        || (AtomicSlotMap::new(), vec![Thread::insert(42), Thread::insert(24)]),
        |sm, _| assert_eq!(sm.lossy_len(), 2),
    );
}

#[test]
fn loom_test_concurrent_remove() {
    explore(
        None,
        || {
            let mut sm = AtomicSlotMap::new();
            let key = sm.insert(100);
            let threads = vec![
                Thread::lookup(Lookup::Remove, key, false),
                Thread::lookup(Lookup::Remove, key, false),
            ];
            (sm, threads)
        },
        |sm, threads| {
            let r1 = threads[0].removed();
            let r2 = threads[1].removed();
            assert!(r1 ^ r2); // Exactly one removal should succeed.
            assert_eq!(sm.lossy_len(), 0);
        },
    );
}

#[test]
fn loom_test_concurrent_get_and_remove() {
    explore(
        None,
        || {
            let mut sm = AtomicSlotMap::new();
            let key = sm.insert(100);
            let threads = vec![
                Thread::lookup(Lookup::Get, key, true),
                Thread::lookup(Lookup::Remove, key, false),
            ];
            (sm, threads)
        },
        |sm, threads| {
            if let Some(val) = threads[0].seen {
                assert_eq!(val, 100);
            }
            assert_eq!(sm.lossy_len(), 0);
        },
    );
}

#[test]
fn loom_test_aba_free_list() {
    explore(
        None,
        || {
            let mut sm = AtomicSlotMap::new();
            let key1 = sm.insert(1);
            let key2 = sm.insert(2);

            sm.remove(key1);
            sm.remove(key2);
            (sm, vec![Thread::insert(3), Thread::insert(4)])
        },
        |sm, _| assert_eq!(sm.lossy_len(), 2),
    );
}

#[test]
fn loom_test_hard_guard_drop_interference() {
    explore(
        Some(3),
        || {
            let mut sm = AtomicSlotMap::new();
            let key = sm.insert(77);
            let threads = vec![
                Thread::lookup(Lookup::Get, key, true),
                Thread::lookup(Lookup::Remove, key, false),
                Thread::lookup(Lookup::Get, key, true),
            ];
            (sm, threads)
        },
        |sm, _| {
            // Eventually, the element must be fully freed.
            assert_eq!(sm.lossy_len(), 0);
        },
    );
}

#[test]
fn three_insertions_share_one_new_chunk() {
    explore(
        Some(2),
        || {
            let mut sm = AtomicSlotMap::new();
            for i in 0..31 {
                sm.insert(i);
            }
            (sm, vec![Thread::insert(100), Thread::insert(101), Thread::insert(102)])
        },
        |mut sm, threads| {
            assert_eq!(sm.lossy_len(), 34);
            assert_eq!(sm.capacity(), 160);
            for (t, thread) in threads.iter().enumerate() {
                assert_eq!(read(&mut sm, thread.key()), Some(100 + t as i32));
            }
        },
    );
}

#[test]
fn a_lookup_waits_for_the_chunk_of_its_slot() {
    let mut sm: Model<i32> = AtomicSlotMap::new();
    let mut insertion = Thread::insert(5);
    insertion.step(&mut sm);
    insertion.step(&mut sm);
    assert_eq!(insertion.agent, Agent::ChunkLoad { idx: 0 });
    let mut lookup = Thread::lookup(
        Lookup::Contains,
        DefaultKey::from_data(KeyData::new(0, 1)),
        false,
    );
    lookup.step(&mut sm);
    assert!(lookup.is_waiting(&mut sm));
    lookup.step(&mut sm);
    assert!(lookup.is_waiting(&mut sm));
    insertion.step(&mut sm);
    insertion.step(&mut sm);
    assert!(!lookup.is_waiting(&mut sm));
    lookup.step(&mut sm);
    lookup.step(&mut sm);
    assert_eq!(lookup.ended, Some(Agent::Contained { found: false }));
    while !insertion.is_done() {
        insertion.step(&mut sm);
    }
    assert_eq!(read(&mut sm, insertion.key()), Some(5));
}

#[test]
fn a_head_that_left_and_came_back_is_not_taken_for_the_same() {
    let mut sm = AtomicSlotMap::new();
    let keys: Vec<DefaultKey> = (0..3).map(|i| sm.insert(i)).collect();
    for key in keys.iter().rev() {
        sm.remove(*key);
    }
    // the free list is 0, 1, 2
    let mut slow = Thread::insert(10);
    slow.step(&mut sm);
    slow.step(&mut sm);
    assert!(matches!(slow.agent, Agent::PopCas { next: 1, .. }));
    // meanwhile 0 and 1 are taken, and 0 comes back: the list is 0, 2
    let zero = sm.insert(20);
    let one = sm.insert(21);
    sm.remove(zero);
    assert_eq!(one.data().idx(), 1);
    slow.step(&mut sm);
    assert!(matches!(slow.agent, Agent::PopNext { .. }));
    while !slow.is_done() {
        slow.step(&mut sm);
    }
    assert_eq!(slow.key().data().idx(), 0);
    // slot 1 is still taken, so the next insertion gets slot 2
    assert_eq!(sm.insert(22).data().idx(), 2);
    assert_eq!(read(&mut sm, one), Some(21));
    assert_eq!(read(&mut sm, slow.key()), Some(10));
}

#[test]
fn an_exchange_that_fails_for_no_reason_is_tried_again() {
    let mut sm = AtomicSlotMap::new();
    let key = sm.insert(1);
    let mut lookup = Thread::lookup(Lookup::Get, key, false);
    while !matches!(lookup.agent, Agent::RefCas { .. }) {
        lookup.step(&mut sm);
    }
    let before = lookup.agent;
    let event = sm.perform(lookup.agent.action(), true, &mut None);
    assert_eq!(event, Event::Word { word: 1 });
    assert_eq!(lookup.agent.resume(event), before);
    while !lookup.is_done() {
        lookup.step(&mut sm);
    }
    assert_eq!(lookup.seen, Some(1));
}

#[test]
fn a_refused_insertion_frees_its_slot() {
    let mut sm: Model<i32> = AtomicSlotMap::new();
    let mut refused = Thread { payload: None, ..Thread::insert(0) };
    while !refused.is_done() {
        refused.step(&mut sm);
    }
    assert_eq!(refused.ended, Some(Agent::Refused));
    assert!(sm.lossy_is_empty());
    let key = sm.insert(9);
    assert_eq!((key.data().idx(), key.data().version()), (0, 1));
}

/// Runs a reservation with nobody else at work.
fn reserve(sm: &mut Model<i32>, additional: usize) -> Agent {
    let mut agent = Agent::reserve(additional);
    while agent.action() != Action::Stop {
        let event = sm.perform(agent.action(), false, &mut None);
        agent = agent.resume(event);
    }
    agent
}

#[test]
fn a_reservation_makes_its_chunks() {
    let mut sm: Model<i32> = AtomicSlotMap::new();
    assert_eq!(reserve(&mut sm, 0), Agent::Reserved);
    assert_eq!(sm.capacity(), 0);
    assert_eq!(reserve(&mut sm, 161), Agent::Reserved);
    assert_eq!(sm.capacity(), 32 + 128 + 512);
}

#[test]
fn a_reservation_counts_the_slots_in_use() {
    let mut sm: Model<i32> = AtomicSlotMap::new();
    let keys: Vec<DefaultKey> = (0..32).map(|i| sm.insert(i)).collect();
    assert_eq!(sm.capacity(), 32);
    // a slot that is free again is room, and one whose value has a guard is not
    sm.remove(keys[3]);
    assert_eq!(reserve(&mut sm, 1), Agent::Reserved);
    assert_eq!(sm.capacity(), 32);
    let guard = sm.get(keys[4]).unwrap();
    sm.remove(keys[4]);
    assert_eq!(reserve(&mut sm, 1), Agent::Reserved);
    assert_eq!(sm.capacity(), 32);
    assert_eq!(reserve(&mut sm, 2), Agent::Reserved);
    assert_eq!(sm.capacity(), 32 + 128);
    guard.drop(&mut sm);
}

#[test]
fn a_reservation_that_is_too_large_makes_nothing() {
    let mut sm: Model<i32> = AtomicSlotMap::new();
    sm.insert(1);
    assert_eq!(reserve(&mut sm, usize::MAX), Agent::TooLarge);
    assert_eq!(sm.capacity(), 32);
}

#[test]
fn a_scan_meets_the_occupied_slots() {
    let mut sm = AtomicSlotMap::new();
    let keys: Vec<DefaultKey> = (0..4).map(|i| sm.insert(i)).collect();
    sm.remove(keys[1]);
    let mut met = Vec::new();
    for idx in 0.. {
        let mut scan = Thread { agent: Agent::scan(idx), ..Thread::lookup(Lookup::Get, keys[0], true) };
        while !scan.is_done() {
            scan.step(&mut sm);
        }
        match scan.ended {
            Some(Agent::Exhausted) => break,
            Some(Agent::Guarding { .. }) => met.push(scan.seen.unwrap()),
            other => assert_eq!(other, Some(Agent::Missing)),
        }
    }
    assert_eq!(met, vec![0, 2, 3]);
}

#[test]
fn too_many_references_end_a_lookup() {
    let agent = Agent::RefLoad { idx: 0, version: 1 };
    assert_eq!(agent.resume(Event::Word { word: 0xFFFF_FF01 }), Agent::Overflowed);
    assert_eq!(
        agent.resume(Event::Word { word: 0xFFFF_FF00 }),
        Agent::RefCas { idx: 0, version: 1, count: 0xFFFF_FF00 }
    );
    assert_eq!(agent.resume(Event::Word { word: 0 }), Agent::Missing);
}

#[test]
fn a_clone_beside_a_removal_and_a_lookup() {
    explore(
        Some(3),
        || {
            let counter = Arc::new(AtomicUsize::new(0));
            let mut sm = AtomicSlotMap::new();
            let key = sm.insert(DropCounter { val: 5, counter });
            // the guard that is cloned is held all the time
            let mut holder = Thread::lookup(Lookup::Get, key, false);
            while !holder.is_done() {
                holder.step(&mut sm);
            }
            let mut cloner = Thread::lookup(Lookup::Get, key, false);
            cloner.agent = Agent::clone_guard(key.data());
            let threads = vec![
                cloner,
                Thread::lookup(Lookup::Remove, key, false),
                Thread::lookup(Lookup::Get, key, true),
            ];
            (sm, threads)
        },
        |mut sm, threads| {
            assert_eq!(threads[0].ended, Some(Agent::Cloned));
            assert!(threads[1].removed());
            assert_eq!(sm.lossy_len(), 0);
            let counter = Arc::clone(&sm.data_at(0).unwrap().counter);
            // copies that the lookups read are dropped too, so only the change counts
            let mut before = counter.load(Ordering::Relaxed);
            for last in [false, true] {
                let mut agent = Agent::release(KeyData::new(0, 1));
                while agent.action() != Action::Stop {
                    let event = sm.perform(agent.action(), false, &mut None);
                    agent = agent.resume(event);
                }
                assert_eq!(agent, Agent::Released);
                let now = counter.load(Ordering::Relaxed);
                assert_eq!(now - before, last as usize);
                before = now;
            }
            assert!(sm.data_at(0).is_none());
        },
    );
}
