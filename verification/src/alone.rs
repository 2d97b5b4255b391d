//! An operation that runs alone does what the map does for a caller with exclusive access.
#[allow(unused_imports)]
use crate::chunks::{
    in_order, lemma_max_capacity, lemma_max_len, lemma_reserved_capacity, lemma_slots_needed,
    max_capacity, reservable, reserved, with_chunks,
};
#[allow(unused_imports)]
use crate::head::{lemma_next_tag, lemma_packed_head};
#[allow(unused_imports)]
use crate::location::{chunk_of, lemma_chunk_of, lemma_starts, CAPACITY, CHUNKS};
#[allow(unused_imports)]
use crate::protocol::{
    finishing, looking, missing, next_word, planned, scanned, Action, After, Agent, Lookup,
};
#[allow(unused_imports)]
use crate::settled::{lemma_referenced, lemma_reserved, lemma_same_slots, lemma_stored_len};
#[allow(unused_imports)]
use crate::slot::{next_version, occupied, zeroed_slot, Slot, MAX_REFCOUNT};
#[allow(unused_imports)]
use crate::state::{lemma_stored_bound, lemma_stored_push, stored_count, State};
#[allow(unused_imports)]
use crate::util::{odd_version_of, KeyView};
#[allow(unused_imports)]
use vstd::prelude::*;

verus! {

broadcast use {lemma_packed_head, lemma_next_tag};

/// Where an agent and the memory are after some steps of the agent alone, with nothing failing for
/// no reason. An agent that is done stays where it is.
#[verifier::opaque]
pub open spec fn alone<V>(s: State<V>, agent: Agent, payload: Option<V>, steps: nat) -> (
    State<V>,
    Agent,
)
    decreases steps,
{
    if steps == 0 {
        (s, agent)
    } else {
        alone(
            s.performed(agent.wants(), false, payload),
            agent.after(s.event(agent.wants(), false, payload)),
            payload,
            (steps - 1) as nat,
        )
    }
}

/// One step of an agent alone.
#[verifier::rlimit(50)]
proof fn lemma_alone_step<V>(s: State<V>, agent: Agent, payload: Option<V>, steps: nat)
    requires
        steps > 0,
    ensures
        alone(s, agent, payload, steps) == alone(
            s.performed(agent.wants(), false, payload),
            agent.after(s.event(agent.wants(), false, payload)),
            payload,
            (steps - 1) as nat,
        ),
{
    reveal_with_fuel(alone, 1);
}

/// How many steps it takes to take a slot.
spec fn claim_steps<V>(s: State<V>) -> nat {
    if s.free.len() > 0 || !s.present[chunk_of(s.slots.len() as int) as int] {
        4
    } else {
        3
    }
}

/// Taking a slot takes four steps at most.
#[verifier::rlimit(50)]
proof fn lemma_alone_claim<V>(s: State<V>, payload: Option<V>, steps: nat)
    requires
        s.settled(),
        !s.full(),
        steps >= 4,
    ensures
        s.next_idx() < s.claimed().slots.len(),
        alone(s, Agent::PopLoad, payload, steps) == alone(
            s.claimed(),
            Agent::Claimed {
                idx: s.next_idx(),
                version: s.claimed().slots[s.next_idx() as int].version,
            },
            payload,
            (steps - claim_steps(s)) as nat,
        ),
{
    reveal_with_fuel(alone, 5);
    lemma_chunk_of(s.slots.len() as int);
    if s.free.len() > 0 {
        assert(s.free[0] < s.slots.len());
    } else {
        assert(s.grown().slots[s.slots.len() as int] == zeroed_slot::<V>());
        if s.present[chunk_of(s.slots.len() as int) as int] {
            assert(s.grown().present =~= s.present);
        }
    }
}

/// An insertion that runs alone inserts the value, under the next key.
#[verifier::rlimit(50)]
pub proof fn lemma_alone_insert<V>(s: State<V>, value: V)
    requires
        s.settled(),
        !s.full(),
    ensures
        alone(s, Agent::PopLoad, Some(value), 9) == (
            s.inserted(value),
            Agent::Inserted { idx: s.next_key().idx, version: s.next_key().version },
        ),
{
    lemma_alone_claim(s, Some(value), 9);
    lemma_alone_publish(s.claimed(), s.next_idx(), value, (9 - claim_steps(s)) as nat);
}

/// An agent that is done stays where it is.
#[verifier::rlimit(50)]
proof fn lemma_alone_done<V>(s: State<V>, agent: Agent, payload: Option<V>, steps: nat)
    requires
        agent.wants() is Stop,
    ensures
        alone(s, agent, payload, steps) == (s, agent),
    decreases steps,
{
    reveal_with_fuel(alone, 1);
    if steps > 0 {
        lemma_alone_done(s, agent, payload, (steps - 1) as nat);
    }
}

/// Publishing a value takes five steps.
#[verifier::rlimit(50)]
proof fn lemma_alone_publish<V>(c: State<V>, idx: u32, value: V, steps: nat)
    requires
        idx < c.slots.len(),
        steps >= 5,
    ensures
        alone(
            c,
            Agent::Claimed { idx, version: c.slots[idx as int].version },
            Some(value),
            steps,
        ) == (
            c.published(idx, value),
            Agent::Inserted { idx, version: odd_version_of(c.slots[idx as int].version) },
        ),
{
    let version = c.slots[idx as int].version;
    reveal_with_fuel(alone, 6);
    let done = Agent::Inserted { idx, version: odd_version_of(version) };
    let p = c.published(idx, value);
    lemma_alone_done(p, done, Some(value), (steps - 5) as nat);
    let s1 = c.performed(Action::WriteData { idx }, false, Some(value));
    let s2 = s1.performed(Action::StoreRef { idx }, false, Some(value));
    let s3 = s2.performed(
        Action::StoreVersion { idx, version: odd_version_of(version) },
        false,
        Some(value),
    );
    let s4 = s3.performed(Action::AddNum, false, Some(value));
    assert(s4.slots =~= p.slots);
}

/// An insertion whose value is refused leaves its slot free, if it runs alone.
#[verifier::rlimit(50)]
pub proof fn lemma_alone_refuse<V>(s: State<V>)
    requires
        s.settled(),
        !s.full(),
    ensures
        alone(s, Agent::PopLoad, None::<V>, 8) == (s.refused(), Agent::Refused),
{
    lemma_alone_claim(s, None::<V>, 8);
    lemma_alone_step(
        s.claimed(),
        Agent::Claimed {
            idx: s.next_idx(),
            version: s.claimed().slots[s.next_idx() as int].version,
        },
        None::<V>,
        (8 - claim_steps(s)) as nat,
    );
    lemma_alone_free(
        s.claimed(),
        s.next_idx(),
        After::Refuse,
        None::<V>,
        (7 - claim_steps(s)) as nat,
    );
}

/// Freeing a slot takes three steps.
#[verifier::rlimit(50)]
proof fn lemma_alone_free<V>(
    c: State<V>,
    idx: u32,
    after: After,
    payload: Option<V>,
    steps: nat,
)
    requires
        steps >= 3,
    ensures
        alone(c, Agent::FreeLoad { idx, after }, payload, steps) == alone(
            c.pushed(idx),
            finishing(after),
            payload,
            (steps - 3) as nat,
        ),
        finishing(after).wants() is Stop ==> alone(
            c,
            Agent::FreeLoad { idx, after },
            payload,
            steps,
        ) == (c.pushed(idx), finishing(after)),
{
    reveal_with_fuel(alone, 4);
    if finishing(after).wants() is Stop {
        lemma_alone_done(c.pushed(idx), finishing(after), payload, (steps - 3) as nat);
    }
}

/// Giving a reference back takes five steps at most.
#[verifier::rlimit(50)]
proof fn lemma_alone_dereference<V>(
    s: State<V>,
    idx: u32,
    after: After,
    payload: Option<V>,
    steps: nat,
)
    requires
        idx < s.slots.len(),
        s.slots[idx as int].ref_count > 0,
        steps >= 5,
    ensures
        alone(s, Agent::RefDrop { idx, after }, payload, steps) == alone(
            s.dereferenced(idx),
            finishing(after),
            payload,
            (steps - (if s.slots[idx as int].ref_count == 1 {
                5int
            } else {
                1int
            })) as nat,
        ),
{
    reveal_with_fuel(alone, 3);
    let dropped = s.performed(Action::FetchSubRef { idx }, false, payload);
    assert(dropped.slots[idx as int].ref_count == s.slots[idx as int].ref_count - 1);
    if s.slots[idx as int].ref_count == 1 {
        let emptied = dropped.performed(Action::DropData { idx }, false, payload);
        assert(emptied.slots =~= s.slots.update(
            idx as int,
            Slot { data: None, ref_count: 0, ..s.slots[idx as int] },
        ));
        assert(emptied.pushed(idx) == s.dereferenced(idx));
        lemma_alone_free(emptied, idx, after, payload, (steps - 2) as nat);
    } else {
        assert(dropped == s.dereferenced(idx));
    }
}

/// The release of a guard does what giving it back does, if it runs alone.
#[verifier::rlimit(50)]
pub proof fn lemma_alone_release<V>(s: State<V>, idx: u32)
    requires
        idx < s.slots.len(),
        s.slots[idx as int].ref_count > 0,
    ensures
        alone(s, Agent::RefDrop { idx, after: After::Release }, None::<V>, 5) == (
            s.dereferenced(idx),
            Agent::Released,
        ),
{
    lemma_alone_dereference(s, idx, After::Release, None::<V>, 5);
    lemma_alone_done(s.dereferenced(idx), Agent::Released, None::<V>, 0);
    lemma_alone_done(s.dereferenced(idx), Agent::Released, None::<V>, 4);
}

/// A clone of a guard counts one more reference, if it runs alone.
pub proof fn lemma_alone_clone<V>(s: State<V>, idx: u32)
    requires
        idx < s.slots.len(),
        s.slots[idx as int].ref_count <= MAX_REFCOUNT,
    ensures
        alone(s, Agent::CloneAdd { idx }, None::<V>, 1) == (s.referenced(idx), Agent::Cloned),
{
    lemma_alone_step(s, Agent::CloneAdd { idx }, None::<V>, 1);
    lemma_alone_done(s.referenced(idx), Agent::Cloned, None::<V>, 0);
}

/// A lookup that finds its slot takes two steps to get there, and one that does not ends.
#[verifier::rlimit(50)]
proof fn lemma_alone_locate<V>(s: State<V>, lookup: Lookup, key: KeyView, steps: nat)
    requires
        s.settled(),
        steps >= 2,
    ensures
        alone(
            s,
            Agent::Locate { lookup, idx: key.idx, version: key.version },
            None::<V>,
            steps,
        ) == (if key.idx < s.slots.len() {
            alone(s, looking(lookup, key.idx, key.version), None::<V>, (steps - 2) as nat)
        } else {
            (s, missing(lookup))
        }),
{
    reveal_with_fuel(alone, 3);
    if key.idx < s.slots.len() {
        lemma_chunk_of(key.idx as int);
        assert(s.present[chunk_of(key.idx as int) as int]);
    } else {
        lemma_alone_done(s, missing(lookup), None::<V>, (steps - 1) as nat);
    }
}

/// A removal that runs alone removes the key, and says whether it was there.
#[verifier::rlimit(50)]
pub proof fn lemma_alone_remove<V>(s: State<V>, key: KeyView)
    requires
        s.settled(),
        occupied(key.version),
    ensures
        alone(
            s,
            Agent::Locate { lookup: Lookup::Remove, idx: key.idx, version: key.version },
            None::<V>,
            10,
        ) == (s.removed(key), Agent::Removed { found: s.contains(key) }),
{
    let idx = key.idx;
    lemma_alone_locate(s, Lookup::Remove, key, 10);
    if idx < s.slots.len() {
        assert(s.slot_ok(idx as int));
        let looking = Agent::RemoveLoad { idx, version: key.version };
        lemma_alone_step(s, looking, None::<V>, 8);
        if s.contains(key) {
            let taking = Agent::RemoveCas { idx, version: key.version };
            lemma_alone_step(s, taking, None::<V>, 7);
            let out = s.with_slot(
                idx,
                Slot { version: next_version(key.version), ..s.slots[idx as int] },
            );
            assert(alone(s, looking, None::<V>, 8) == alone(
                out,
                Agent::RefDrop { idx, after: After::Remove },
                None::<V>,
                6,
            ));
            lemma_alone_dereference(out, idx, After::Remove, None::<V>, 6);
            let left = out.dereferenced(idx);
            lemma_alone_step(left, Agent::NumSub, None::<V>, 1);
            lemma_alone_step(left, Agent::NumSub, None::<V>, 5);
            let counted = left.performed(Action::SubNum, false, None::<V>);
            lemma_alone_done(counted, Agent::Removed { found: true }, None::<V>, 0);
            lemma_alone_done(counted, Agent::Removed { found: true }, None::<V>, 4);
            assert(left.num_elems == s.num_elems);
            assert(counted == s.removed(key));
        } else {
            lemma_alone_done(s, Agent::Removed { found: false }, None::<V>, 7);
        }
    }
}

/// A lookup that runs alone gives a guard where the key is in the map, and leaves the map as it was
/// where it is not.
#[verifier::rlimit(50)]
pub proof fn lemma_alone_get<V>(s: State<V>, key: KeyView)
    requires
        s.settled(),
        occupied(key.version),
        s.may_acquire(key),
    ensures
        alone(
            s,
            Agent::Locate { lookup: Lookup::Get, idx: key.idx, version: key.version },
            None::<V>,
            6,
        ) == (
            s.acquired(key),
            if s.contains(key) {
                Agent::Guarding { idx: key.idx, version: key.version }
            } else {
                Agent::Missing
            },
        ),
{
    let idx = key.idx;
    let version = key.version;
    lemma_alone_locate(s, Lookup::Get, key, 6);
    if idx < s.slots.len() {
        assert(s.slot_ok(idx as int));
        lemma_alone_step(s, Agent::RefLoad { idx, version }, None::<V>, 4);
        if s.slots[idx as int].ref_count > 0 {
            lemma_alone_acquire(s, key);
        } else {
            lemma_alone_done(s, Agent::Missing, None::<V>, 3);
        }
    }
}

/// Taking a reference, and giving it back where the version is another, takes three steps at most.
#[verifier::rlimit(50)]
proof fn lemma_alone_acquire<V>(s: State<V>, key: KeyView)
    requires
        key.idx < s.slots.len(),
        occupied(key.version),
        0 < s.slots[key.idx as int].ref_count <= MAX_REFCOUNT,
    ensures
        alone(
            s,
            Agent::RefCas {
                idx: key.idx,
                version: key.version,
                count: s.slots[key.idx as int].ref_count,
            },
            None::<V>,
            3,
        ) == (
            s.acquired(key),
            if s.contains(key) {
                Agent::Guarding { idx: key.idx, version: key.version }
            } else {
                Agent::Missing
            },
        ),
{
    let idx = key.idx;
    let version = key.version;
    let r = s.referenced(idx);
    let taking = Agent::RefCas { idx, version, count: s.slots[idx as int].ref_count };
    lemma_alone_step(s, taking, None::<V>, 3);
    assert(r == s.performed(taking.wants(), false, None::<V>));
    lemma_alone_step(r, Agent::RefCheck { idx, version }, None::<V>, 2);
    if s.contains(key) {
        lemma_alone_done(r, Agent::Guarding { idx, version }, None::<V>, 1);
    } else {
        let giving = Agent::RefDrop { idx, after: After::Lookup };
        lemma_alone_step(r, giving, None::<V>, 1);
        lemma_alone_done(s, Agent::Missing, None::<V>, 0);
        let back = r.performed(giving.wants(), false, None::<V>);
        assert(back.slots =~= s.slots);
        assert(back == s);
    }
}

/// A question for a key that runs alone is answered, and changes nothing.
#[verifier::rlimit(50)]
pub proof fn lemma_alone_contains<V>(s: State<V>, key: KeyView)
    requires
        s.settled(),
        occupied(key.version),
    ensures
        alone(
            s,
            Agent::Locate { lookup: Lookup::Contains, idx: key.idx, version: key.version },
            None::<V>,
            3,
        ) == (s, Agent::Contained { found: s.contains(key) }),
{
    lemma_alone_locate(s, Lookup::Contains, key, 3);
    if key.idx < s.slots.len() {
        let looking = Agent::ContainsLoad { idx: key.idx, version: key.version };
        lemma_alone_step(s, looking, None::<V>, 1);
        lemma_alone_done(s, Agent::Contained { found: s.contains(key) }, None::<V>, 0);
    }
}

/// A reservation that runs alone makes the chunks up to the last one.
#[verifier::rlimit(50)]
proof fn lemma_alone_reserve_from<V>(s: State<V>, chunk: usize, last: usize, steps: nat)
    requires
        s.present.len() == CHUNKS,
        chunk <= last < CHUNKS,
        forall|k: int| 0 <= k < chunk ==> #[trigger] s.present[k],
        steps >= 2 * (last - chunk + 1),
    ensures
        alone(s, Agent::ReserveLoad { chunk, last }, None::<V>, steps) == (
            State { present: with_chunks(s.present, last as nat), ..s },
            Agent::Reserved,
        ),
    decreases last - chunk,
{
    let there = State { present: s.present.update(chunk as int, true), ..s };
    lemma_alone_step(s, Agent::ReserveLoad { chunk, last }, None::<V>, steps);
    if s.present[chunk as int] {
        assert(there.present =~= s.present);
        if chunk < last {
            lemma_alone_reserve_from(s, (chunk + 1) as usize, last, (steps - 1) as nat);
        } else {
            lemma_alone_done(s, Agent::Reserved, None::<V>, (steps - 1) as nat);
            assert(with_chunks(s.present, last as nat) =~= s.present);
        }
    } else {
        lemma_alone_step(
            s,
            Agent::ReserveInstall { chunk, last },
            None::<V>,
            (steps - 1) as nat,
        );
        assert(with_chunks(there.present, last as nat) =~= with_chunks(s.present, last as nat));
        if chunk < last {
            lemma_alone_reserve_from(there, (chunk + 1) as usize, last, (steps - 2) as nat);
        } else {
            lemma_alone_done(there, Agent::Reserved, None::<V>, (steps - 2) as nat);
            assert(with_chunks(s.present, last as nat) =~= there.present);
        }
    }
}

/// A reservation that runs alone counts every slot that somebody refers to.
#[verifier::rlimit(50)]
proof fn lemma_alone_scan<V>(s: State<V>, next: u32, in_use: u32, additional: usize, steps: nat)
    requires
        s.settled(),
        next <= s.slots.len(),
        in_use == stored_count(s.slots.subrange(0, next as int)),
        steps >= 2 * (s.slots.len() - next),
    ensures
        in_use <= next,
        alone(s, scanned(next, s.slots.len() as u32, in_use, additional), None::<V>, steps)
            == alone(
            s,
            planned(s.slots.len() as u32, stored_count(s.slots) as u32, additional),
            None::<V>,
            (steps - 2 * (s.slots.len() - next)) as nat,
        ),
    decreases s.slots.len() - next,
{
    let len = s.slots.len() as u32;
    lemma_stored_bound(s.slots.subrange(0, next as int));
    if next < len {
        lemma_chunk_of(next as int);
        assert(s.present[chunk_of(next as int) as int]);
        let scanning = Agent::ReserveScan { next, len, in_use, additional };
        let counting = Agent::ReserveCount { next, len, in_use, additional };
        lemma_alone_step(s, scanning, None::<V>, steps);
        lemma_alone_step(s, counting, None::<V>, (steps - 1) as nat);
        lemma_stored_push(s.slots.subrange(0, next as int), s.slots[next as int]);
        assert(s.slots.subrange(0, next + 1) =~= s.slots.subrange(0, next as int).push(
            s.slots[next as int],
        ));
        let counted = if s.slots[next as int].ref_count > 0 {
            next_word(in_use)
        } else {
            in_use
        };
        lemma_alone_scan(s, (next + 1) as u32, counted, additional, (steps - 2) as nat);
    } else {
        assert(s.slots.subrange(0, next as int) =~= s.slots);
    }
}

/// A reservation that runs alone makes room for as many elements as it was asked for, beside the values
/// that were not dropped yet, and says so where there cannot be so much.
#[verifier::rlimit(50)]
pub proof fn lemma_alone_reserve<V>(s: State<V>, additional: usize)
    requires
        s.settled(),
    ensures
        ({
            let target = s.target_len(additional as nat);
            alone(s, Agent::ReserveLen { additional }, None::<V>, 31 + 2 * s.slots.len()) == (
                if reservable(0, target) {
                    (State { present: reserved(s.present, 0, target), ..s }, Agent::Reserved)
                } else {
                    (s, Agent::TooLarge)
                }
            )
        }),
{
    let target = s.target_len(additional as nat);
    let len = s.slots.len() as u32;
    let steps = 31 + 2 * s.slots.len();
    lemma_stored_len(s);
    lemma_alone_step(s, Agent::ReserveLen { additional }, None::<V>, steps);
    assert(s.slots.subrange(0, 0) =~= Seq::empty());
    lemma_alone_scan(s, 0, 0, additional, (steps - 1) as nat);
    if !reservable(0, target) {
        lemma_alone_done(s, Agent::TooLarge, None::<V>, 30);
    } else if target == 0 {
        lemma_alone_done(s, Agent::Reserved, None::<V>, 30);
    } else {
        lemma_chunk_of(target - 1);
        lemma_alone_reserve_from(s, 0, chunk_of(target - 1) as usize, 30);
    }
}

/// A reservation that runs alone ends as too large only where a vector cannot have so many slots as there are
/// values that were not dropped yet and elements that are to fit. Else it makes room for them, and takes
/// nothing away.
#[verifier::rlimit(50)]
pub proof fn lemma_alone_reserve_makes_room<V>(s: State<V>, additional: usize)
    requires
        s.settled(),
    ensures
        ({
            let wanted = s.stored().dom().len() + additional;
            let (n, agent) = alone(
                s,
                Agent::ReserveLen { additional },
                None::<V>,
                31 + 2 * s.slots.len(),
            );
            if wanted > max_capacity() {
                agent == Agent::TooLarge && n == s
            } else {
                &&& agent == Agent::Reserved
                &&& n.settled()
                &&& n.capacity() >= wanted
                &&& n.capacity() >= s.capacity()
                &&& n.live() == s.live()
                &&& n.stored() == s.stored()
            }
        }),
{
    let target = s.target_len(additional as nat);
    lemma_alone_reserve(s, additional);
    lemma_stored_len(s);
    lemma_slots_needed(s.slots.len(), s.stored().dom().len(), additional as nat);
    lemma_max_len();
    if reservable(0, target) {
        let n = State { present: reserved(s.present, 0, target), ..s };
        lemma_max_capacity();
        lemma_starts();
        assert(max_capacity() <= CAPACITY);
        if target > 0 {
            lemma_chunk_of(target - 1);
        }
        lemma_reserved(s, target);
        lemma_same_slots(s, n);
        assert(in_order(s.present, 0));
        lemma_reserved_capacity(s.present, 0, target);
    }
}

/// A scan of a slot that runs alone gives a guard of the slot's key where the slot is occupied, and takes
/// one reference. It ends without a guard where the slot is not occupied, and says that there are no more
/// slots only past the last one.
#[verifier::rlimit(50)]
pub proof fn lemma_alone_look_at_slot<V>(s: State<V>, idx: u32)
    requires
        s.settled(),
        idx < s.slots.len() ==> s.slots[idx as int].ref_count <= MAX_REFCOUNT,
    ensures
        ({
            let (n, agent) = alone(
                s,
                Agent::Locate { lookup: Lookup::Scan, idx, version: 1 },
                None::<V>,
                9,
            );
            if idx >= s.slots.len() {
                agent == Agent::Exhausted && n == s
            } else {
                let key = KeyView { idx, version: s.slots[idx as int].version };
                if s.live().contains_key(key) {
                    &&& agent == (Agent::Guarding { idx, version: key.version })
                    &&& n.settled()
                    &&& n.live() == s.live()
                    &&& n.stored() == s.stored()
                    &&& forall|k: KeyView| #[trigger]
                        n.guards(k) == s.guards(k) + (if k == key {
                            1nat
                        } else {
                            0nat
                        })
                } else {
                    &&& agent == Agent::Missing
                    &&& n == s
                    &&& forall|version: u32| !#[trigger] s.contains(KeyView { idx, version })
                }
            }
        }),
{
    let first = KeyView { idx, version: 1 };
    lemma_alone_locate(s, Lookup::Scan, first, 9);
    if idx < s.slots.len() {
        let version = s.slots[idx as int].version;
        let key = KeyView { idx, version };
        assert(s.slot_ok(idx as int));
        lemma_alone_step(s, Agent::ScanLoad { idx }, None::<V>, 7);
        if occupied(version) {
            assert(s.stores(key));
            lemma_alone_get(s, key);
            lemma_referenced(s, key);
        } else {
            lemma_alone_done(s, Agent::Missing, None::<V>, 6);
        }
    }
}

} // verus!
