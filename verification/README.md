# `atomic_slotmap`

A slot map with stable unique keys and reference-counted guards, whose operations can run beside each
other without a lock. A removed value stays until its last guard is given back. The library is written
in Verus: every function in `src/` has a contract that is proved, but for three that are believed. They
stand in `util` and call the `slotmap` crate, and their contracts say what its source shows.

## Two ways to run an operation

**With exclusive access.** `AtomicSlotMap` (in `map`) does each operation as a whole, on a map that
the caller borrows mutably. Its view is a `State`: the slots, the chunks that are allocated, the packed
head of the free list and the counter of elements. The contracts say what becomes of the keys in the
map (`live`), of the values that were not dropped yet (`stored`) and of the guards (`guards`), and which
`State` is left behind. Guards are tokens: `guard.deref(&map)` reads the value and `guard.drop(&mut map)`
gives the guard back.

**Beside each other.** `protocol` has each operation as an `Agent`: a small machine that asks for one
atomic action on shared memory at a time and goes on with what the action gave back. Whoever runs an
agent performs its actions, on real atomics as `app/` does, or on an `AtomicSlotMap` with `perform`.

## Modules

| Module | Contents |
| --- | --- |
| `util` | keys, on top of the `slotmap` crate |
| `head` | the packed word that heads the free list: a tag and an index |
| `location`, `chunks`, `vec` | the vector of chunks that grow by a factor of four |
| `slot` | one slot: value, link, reference count, version |
| `state`, `settled` | the state of a map, what each operation makes of it, and that it stays sound |
| `map`, `guard`, `owning_guard`, `iter` | the map, its guards and iteration |
| `laws`, `history` | what holds across operations that come one after the other |
| `ledger` | a map answers like an ordinary one whose `n`-th insertion has the key `n` |
| `protocol`, `memory` | agents, and what an atomic action does |
| `world`, `count`, `steps` | any number of agents on one memory, and the invariant that every step keeps |
| `linear`, `runs`, `replay` | what the agents do to the contents of the map, in every order of their steps |
| `values` | each value that agents write is dropped once, or is in its slot still |
| `alone` | an agent that runs alone does what the operation with exclusive access does |
| `fuzz`, `session`, `crew` | a workload of four workers on a map, and that everything they check holds in every order of whole operations |
| `threads`, `discipline`, `strides`, `turns` | the same workers as threads, and that everything they check holds in every order of single steps |

## What is proved of agents

For any number of agents and every order of their steps:

- Every step keeps the invariant, and every action finds the slot and the chunk that it works on.
- Whoever writes or drops a value is alone with its slot. A guarded value does not change.
- Every run is linear: what its operations did and learned could have happened one after the other, each
  at one of its own steps. Of several removals of a key only one takes it.
- An exchange of the free list's head that succeeds takes the first slot, whatever was taken and put back
  since the head was read.
- Once all agents are done, every slot is free or referenced, and the counter of elements is right.
- Keys do not come back.
- An insertion publishes the value that its caller gave it. Each value that is written is dropped once,
  or is in its slot still.

For four workers that use a map at once, each through its agents, and every order of their single steps:

- Every key that a worker knows leads to its own value, until it is removed. Every removal of it succeeds.
- Every guard leads to its value for as long as it is kept.
- A removed key and a key that was never given are found by no lookup, no question and no removal.
- Once all workers are done, each value that was made was dropped exactly once or is in the map still.

Two of the laws on any number of agents have a limit that comes with 32-bit counters. An agent that has read the head of the free
list has to exchange it before 2^32 other changes of the list. A key does not come back before its slot
was used 2^31 times more, however long the run.

The model of memory is that one action happens after the other. That the orderings of the atomics in
`app/` give no more behaviours than that is not part of the proofs, and neither is a value whose
construction panics.

## Around the library

`app/` is the map that threads share: slots made of atomics, chunks behind atomic pointers, guards with
`Deref` and `Drop`, all driven by the agents of the library. It also runs workloads from a fuzzer on that map.
`tests/` runs the library, and runs agents in every order within a bound on interruptions.
