//! Four workers whose single steps come in scattered orders, and what they check.
use atomic_slotmap::fuzz::forge;
use atomic_slotmap::protocol::{Action, Agent, Event, Lookup};
use atomic_slotmap::{AtomicSlotMap, DefaultKey, Key, KeyData};
use std::sync::atomic::{AtomicUsize, Ordering};
use std::sync::Arc;

/// A value that is counted when it is dropped.
struct Counted(u32, Arc<AtomicUsize>);

impl Drop for Counted {
    fn drop(&mut self) {
        self.1.fetch_add(1, Ordering::Relaxed);
    }
}

type Model = AtomicSlotMap<DefaultKey, Counted>;

/// Numbers without a pattern.
struct Scatter(u64);

impl Scatter {
    fn below(&mut self, n: usize) -> usize {
        self.0 = self.0.wrapping_mul(6364136223846793005).wrapping_add(1442695040888963407);
        ((self.0 >> 33) % n as u64) as usize
    }
}

#[derive(Clone, Copy)]
struct Entry {
    key: DefaultKey,
    value: u32,
}

/// What a worker is in the middle of.
enum Task {
    Idle,
    Insert(u32),
    Remove(Entry),
    Compare(Entry),
    Retain(Entry),
    Miss(DefaultKey, Lookup),
    Other,
}

struct Worker {
    task: Task,
    agent: Agent,
    payload: Option<Counted>,
    left: usize,
    private: Vec<Entry>,
    retained: Vec<Entry>,
    graves: Vec<DefaultKey>,
}

/// The shared memory and what the workers have together.
struct Shop {
    map: Model,
    shared: Vec<Entry>,
    lock: Option<usize>,
    counter: Arc<AtomicUsize>,
    made: usize,
}

impl Worker {
    fn new(left: usize) -> Self {
        Worker {
            task: Task::Idle,
            agent: Agent::Missing,
            payload: None,
            left,
            private: Vec::new(),
            retained: Vec::new(),
            graves: Vec::new(),
        }
    }

    fn is_through(&self) -> bool {
        matches!(self.task, Task::Idle) && self.left == 0 && self.retained.is_empty()
    }

    fn begin(&mut self, task: Task, agent: Agent) {
        self.task = task;
        self.agent = agent;
    }

    /// Takes up an operation.
    fn take_up(&mut self, me: usize, shop: &mut Shop, scatter: &mut Scatter) {
        if self.left == 0 {
            let entry = self.retained.remove(0);
            assert_eq!(read(shop, entry.key), entry.value);
            self.begin(Task::Other, Agent::release(entry.key.data()));
            return;
        }
        let use_shared = scatter.below(2) == 0;
        let what = scatter.below(10);
        if use_shared && (3..=7).contains(&what) && shop.lock.is_some() {
            return;
        }
        self.left -= 1;
        let Shop { shared, lock, counter, made, .. } = shop;
        match what {
            0 | 1 => {
                let value = *made as u32 + 100;
                *made += 1;
                self.payload = Some(Counted(value, Arc::clone(counter)));
                self.begin(Task::Insert(value), Agent::insert());
            }
            2 => self.begin(Task::Other, Agent::reserve(scatter.below(256))),
            3 if use_shared => {
                if !self.private.is_empty() {
                    let at = scatter.below(self.private.len());
                    shared.push(self.private.remove(at));
                }
            }
            4..=7 => {
                let keys = if use_shared { shared } else { &mut self.private };
                if keys.is_empty() {
                    return;
                }
                if use_shared {
                    *lock = Some(me);
                }
                let at = scatter.below(keys.len());
                let entry = keys[at];
                let (task, lookup) = match what {
                    4 => (Task::Compare(entry), Lookup::Get),
                    5 => (Task::Retain(entry), Lookup::Get),
                    _ => {
                        keys.remove(at);
                        (Task::Remove(entry), Lookup::Remove)
                    }
                };
                self.begin(task, Agent::lookup(lookup, entry.key.data()));
            }
            8 if !self.graves.is_empty() => {
                let key = self.graves[scatter.below(self.graves.len())];
                self.begin(Task::Miss(key, Lookup::Get), Agent::lookup(Lookup::Get, key.data()));
            }
            9 => {
                let key = forge(scatter.below(1_000_000));
                self.begin(Task::Miss(key, Lookup::Get), Agent::lookup(Lookup::Get, key.data()));
            }
            _ => {}
        }
    }

    /// Goes on with what the agent found.
    fn end(&mut self, me: usize, shop: &mut Shop) {
        match std::mem::replace(&mut self.task, Task::Idle) {
            Task::Insert(value) => match self.agent {
                Agent::Inserted { idx, version } => {
                    let key = DefaultKey::from_data(KeyData::from_ffi(
                        (version as u64) << 32 | idx as u64,
                    ));
                    self.private.push(Entry { key, value });
                }
                other => panic!("{other:?}"),
            },
            Task::Remove(entry) => {
                assert_eq!(self.agent, Agent::Removed { found: true });
                self.graves.push(entry.key);
            }
            Task::Compare(entry) => {
                assert!(matches!(self.agent, Agent::Guarding { .. }));
                assert_eq!(read(shop, entry.key), entry.value);
                self.begin(Task::Other, Agent::release(entry.key.data()));
                return;
            }
            Task::Retain(entry) => {
                assert!(matches!(self.agent, Agent::Guarding { .. }));
                assert_eq!(read(shop, entry.key), entry.value);
                self.retained.push(entry);
            }
            Task::Miss(key, Lookup::Get) => {
                assert_eq!(self.agent, Agent::Missing);
                let next = Agent::lookup(Lookup::Contains, key.data());
                self.begin(Task::Miss(key, Lookup::Contains), next);
            }
            Task::Miss(key, Lookup::Contains) => {
                assert_eq!(self.agent, Agent::Contained { found: false });
                let next = Agent::lookup(Lookup::Remove, key.data());
                self.begin(Task::Miss(key, Lookup::Remove), next);
            }
            Task::Miss(_, _) => assert_eq!(self.agent, Agent::Removed { found: false }),
            Task::Other => assert!(matches!(self.agent, Agent::Released | Agent::Reserved)),
            Task::Idle => {}
        }
        if shop.lock == Some(me) {
            shop.lock = None;
        }
    }

    fn turn(&mut self, me: usize, shop: &mut Shop, scatter: &mut Scatter) {
        if matches!(self.task, Task::Idle) {
            self.take_up(me, shop, scatter);
        } else if self.agent.action() == Action::Stop {
            self.end(me, shop);
        } else {
            let weak = scatter.below(8) == 0;
            let event: Event = shop.map.perform(self.agent.action(), weak, &mut self.payload);
            self.agent = self.agent.resume(event);
        }
    }
}

/// The value that a guard of a key leads to.
fn read(shop: &Shop, key: DefaultKey) -> u32 {
    let idx = (key.data().as_ffi() & 0xffff_ffff) as u32;
    shop.map.data_at(idx).unwrap().0
}

#[test]
fn all_checks_hold_whatever_the_order_of_the_steps() {
    for seed in 0..60 {
        let mut scatter = Scatter(seed);
        let mut shop = Shop {
            map: AtomicSlotMap::new(),
            shared: Vec::new(),
            lock: None,
            counter: Arc::new(AtomicUsize::new(0)),
            made: 0,
        };
        let mut workers: Vec<Worker> = (0..4).map(|_| Worker::new(60)).collect();
        while workers.iter().any(|worker| !worker.is_through()) {
            let me = scatter.below(4);
            if !workers[me].is_through() {
                workers[me].turn(me, &mut shop, &mut scatter);
            }
        }
        // what is in the map is what the workers know, and all other values were dropped once
        let known: Vec<Entry> =
            workers.iter().flat_map(|worker| worker.private.clone()).chain(shop.shared.clone()).collect();
        assert_eq!(shop.map.lossy_len(), known.len());
        assert_eq!(shop.made, shop.counter.load(Ordering::Relaxed) + known.len());
        for entry in &known {
            let guard = shop.map.get(entry.key).unwrap();
            assert_eq!(guard.deref(&shop.map).0, entry.value);
            guard.drop(&mut shop.map);
        }
        shop.map.drop();
        assert_eq!(shop.made, shop.counter.load(Ordering::Relaxed));
    }
}
