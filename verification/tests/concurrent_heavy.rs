//! Many threads, each with a long program of operations, whose steps come in a scattered order.
use atomic_slotmap::protocol::{Action, Agent, Lookup};
use atomic_slotmap::{AtomicSlotMap, DefaultKey, Key, KeyData, KeyDataRead};

type Model = AtomicSlotMap<DefaultKey, u32>;

/// One operation of a program.
#[derive(Clone, Copy)]
enum Command {
    /// Inserts a value and keeps the key in a register.
    Insert { register: usize, value: u32 },
    /// Asks whether the key in a register is there, expecting that it is.
    Contains { register: usize },
    /// Looks up the key in a register, expecting a value.
    Get { register: usize, value: u32 },
    /// Removes the key in a register.
    Remove { register: usize },
}

struct Thread {
    program: Vec<Command>,
    next: usize,
    keys: Vec<DefaultKey>,
    agent: Agent,
    payload: Option<u32>,
    /// How many turns a value takes to be made.
    delay: usize,
    waited: usize,
}

impl Thread {
    fn new(program: Vec<Command>, delay: usize) -> Self {
        Thread {
            program,
            next: 0,
            keys: vec![DefaultKey::null(); 100],
            agent: Agent::Released,
            payload: None,
            delay,
            waited: 0,
        }
    }

    fn is_done(&self) -> bool {
        self.next == self.program.len() && self.agent.action() == Action::Stop
    }

    fn turn(&mut self, map: &mut Model) {
        if self.agent.action() == Action::Stop {
            let command = self.program[self.next];
            self.next += 1;
            self.agent = match command {
                Command::Insert { value, .. } => {
                    self.payload = Some(value);
                    self.waited = 0;
                    Agent::insert()
                }
                Command::Contains { register } => {
                    Agent::lookup(Lookup::Contains, self.keys[register].data())
                }
                Command::Get { register, .. } => {
                    Agent::lookup(Lookup::Get, self.keys[register].data())
                }
                Command::Remove { register } => {
                    Agent::lookup(Lookup::Remove, self.keys[register].data())
                }
            };
        }
        if matches!(self.agent, Agent::Claimed { .. }) && self.waited < self.delay {
            self.waited += 1;
            return;
        }
        let event = map.perform(self.agent.action(), false, &mut self.payload);
        self.agent = self.agent.resume(event);
        if self.agent.action() == Action::Stop {
            match (self.program[self.next - 1], self.agent) {
                (Command::Insert { register, .. }, Agent::Inserted { idx, version }) => {
                    self.keys[register] = DefaultKey::from_data(KeyData::new(idx, version));
                }
                (Command::Contains { .. }, agent) => {
                    assert_eq!(agent, Agent::Contained { found: true });
                }
                (Command::Get { value, .. }, Agent::Guarding { idx, version }) => {
                    assert_eq!(map.data_at(idx).copied(), Some(value));
                    self.agent = Agent::release(KeyData::new(idx, version));
                }
                (Command::Get { .. }, Agent::Released) => {}
                (Command::Remove { .. }, agent) => {
                    assert_eq!(agent, Agent::Removed { found: true });
                }
                (_, agent) => panic!("{:?}", agent),
            }
        }
    }
}

/// Adds and removes elements, and checks after each step that all keys have their values.
fn program() -> Vec<Command> {
    let mut program = Vec::new();
    for i in 0..100 {
        program.push(Command::Insert { register: i, value: i as u32 });

        // verify that all previous keys still have their expected values
        for k in 0..i {
            program.push(Command::Get { register: k, value: k as u32 });
        }
    }

    // now we deallocate 10 keys so that we can test reclamation
    for i in 0..10 {
        program.push(Command::Remove { register: i });
        for k in (i + 1)..100 {
            program.push(Command::Get { register: k, value: k as u32 });
        }
    }

    // we allocate 10 keys again
    for i in 0..10 {
        program.push(Command::Insert { register: i, value: i as u32 });
        for k in 0..i {
            program.push(Command::Get { register: k, value: k as u32 });
        }
    }

    // we deallocate all keys now
    for i in 0..100 {
        program.push(Command::Remove { register: i });
        for k in (i + 1)..100 {
            program.push(Command::Get { register: k, value: k as u32 });
        }
    }
    program
}

/// Gives turns to the threads, in a scattered order, until all are done.
fn run(map: &mut Model, threads: &mut Vec<Thread>) {
    let mut seed: u64 = 0x9E37_79B9_7F4A_7C15;
    loop {
        let live: Vec<usize> = (0..threads.len()).filter(|&t| !threads[t].is_done()).collect();
        if live.is_empty() {
            return;
        }
        for _ in 0..64 {
            seed = seed.wrapping_mul(6364136223846793005).wrapping_add(1442695040888963407);
            let t = live[(seed >> 33) as usize % live.len()];
            if !threads[t].is_done() {
                threads[t].turn(map);
            }
        }
    }
}

#[test]
fn test_multithreaded() {
    // tests multiple threads adding and removing elements into the slotmap and verifying that
    // they have correct values
    let mut sm: Model = AtomicSlotMap::new();
    let mut threads: Vec<Thread> = (0..10).map(|_| Thread::new(program(), 0)).collect();
    run(&mut sm, &mut threads);
    assert!(sm.lossy_is_empty());
    assert_eq!(sm.lossy_iter().count(&mut sm), 0);
}

#[test]
fn test_multithreaded_closure_insertion() {
    // a value takes many turns to be made, which makes everything more prone to collisions
    let mut sm: Model = AtomicSlotMap::new();
    let mut threads: Vec<Thread> = (0..10).map(|_| Thread::new(program(), 20)).collect();
    run(&mut sm, &mut threads);
    assert!(sm.lossy_is_empty());
}

#[test]
fn test_multithreaded_closure_insertion_with_interference() {
    // another thread constantly inserts and removes keys
    let mut sm: Model = AtomicSlotMap::new();
    let mut threads: Vec<Thread> = (0..10).map(|_| Thread::new(program(), 20)).collect();
    let mut interference = Vec::new();
    for i in 0..2000 {
        interference.push(Command::Insert { register: 0, value: i });
        interference.push(Command::Contains { register: 0 });
        interference.push(Command::Get { register: 0, value: i });
        interference.push(Command::Remove { register: 0 });
    }
    threads.push(Thread::new(interference, 0));
    run(&mut sm, &mut threads);
    assert!(sm.lossy_is_empty());
}
