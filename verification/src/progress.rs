//! Every operation comes to its own end: an agent that is left alone, wherever it is, ends within a few steps,
//! and no step takes it to the end of another operation.
#[allow(unused_imports)]
use crate::chunks::{lemma_max_len, max_capacity, max_len, slots_needed};
#[allow(unused_imports)]
use crate::count::{has_role, lemma_count_nonnegative, lemma_count_subset, lemma_counted, Role};
#[allow(unused_imports)]
use crate::discipline::{is_claiming, is_filling, is_getting, is_published, is_publishing};
#[allow(unused_imports)]
use crate::head::{lemma_next_tag, lemma_packed_head};
#[allow(unused_imports)]
use crate::linear::{lemma_live_step, lemma_lookup_step};
#[allow(unused_imports)]
use crate::location::{chunk_start, lemma_chunk_of, CHUNKS};
#[allow(unused_imports)]
use crate::protocol::{next_word, planned, After, Agent, Lookup};
#[allow(unused_imports)]
use crate::slot::MAX_REFCOUNT;
#[allow(unused_imports)]
use crate::steps::lemma_step;
#[allow(unused_imports)]
use crate::strides::lemma_getting_on;
#[allow(unused_imports)]
use crate::util::KeyView;
#[allow(unused_imports)]
use crate::world::World;
#[allow(unused_imports)]
use vstd::prelude::*;

verus! {

broadcast use {lemma_packed_head, lemma_next_tag};

/// Where the agents are after some steps of agent `t` alone, with nothing failing for no reason.
pub open spec fn solo<V>(w: World<V>, t: int, reply: Option<V>, steps: nat) -> World<V>
    decreases steps,
{
    if steps == 0 {
        w
    } else {
        solo(w.step(t, false, reply), t, reply, (steps - 1) as nat)
    }
}

/// Whether agent `t` cannot go on by itself: it waits for a chunk that another agent is to make, or the map
/// is full, or no reference more can be counted.
pub open spec fn stuck<V>(w: World<V>, t: int) -> bool {
    match w.agents[t] {
        Agent::Await { lookup: _, idx, version: _ } => !w.state.reachable(idx),
        Agent::GrowLen => w.state.slots.len() >= max_len(),
        Agent::CloneAdd { idx } => w.state.slots[idx as int].ref_count == u32::MAX,
        _ => false,
    }
}

/// Whether agent `t` is a reservation.
pub open spec fn is_reservation(agent: Agent) -> bool {
    agent is ReserveLen || agent is ReserveScan || agent is ReserveCount || agent is ReserveLoad
        || agent is ReserveInstall
}

/// Fewer changes of the free list than there are tags have happened since agent `t` read its head, if it is
/// to exchange it.
pub open spec fn tag_is_recent<V>(w: World<V>, t: int) -> bool {
    w.agents[t] is PopNext || w.agents[t] is PopCas ==> w.ops - w.seen[t] < 0x1_0000_0000
}

/// What is left to do once a slot is free.
spec fn coda(after: After) -> nat {
    if after == After::Remove {
        1
    } else {
        0
    }
}

/// How many steps agent `t` takes at most, if it is left alone.
spec fn rank<V>(w: World<V>, t: int) -> nat {
    let s = w.state;
    match w.agents[t] {
        Agent::NumAdd { .. } => 1,
        Agent::VersionStore { .. } => 2,
        Agent::RefStore { .. } => 3,
        Agent::DataWrite { .. } => 4,
        Agent::Claimed { .. } => 5,
        Agent::VersionLoad { .. } => 6,
        Agent::ChunkInstall { .. } => 6,
        Agent::ChunkLoad { .. } => 7,
        Agent::GrowLen => 8,
        Agent::PopCas { head, next: _ } => if s.free_head == head {
            7
        } else {
            9
        },
        Agent::PopNext { head } => if s.free_head == head {
            8
        } else {
            10
        },
        Agent::PopLoad => 9,
        Agent::NumSub => 1,
        Agent::FreeCas { idx: _, head, after } => coda(after) + (if s.free_head == head {
            1nat
        } else {
            3nat
        }),
        Agent::FreeLink { idx: _, head, after } => coda(after) + (if s.free_head == head {
            2nat
        } else {
            4nat
        }),
        Agent::FreeLoad { idx: _, after } => coda(after) + 3,
        Agent::ValueDrop { idx: _, after } => coda(after) + 4,
        Agent::RefDrop { idx: _, after } => coda(after) + 5,
        Agent::RefCheck { .. } => 6,
        Agent::RefCas { idx, version: _, count } => if s.slots[idx as int].ref_count == count {
            7
        } else {
            8
        },
        Agent::RefLoad { .. } => 8,
        Agent::RemoveCas { .. } => 7,
        Agent::RemoveLoad { .. } => 8,
        Agent::ContainsLoad { .. } => 1,
        Agent::ScanLoad { .. } => 11,
        Agent::Await { lookup, idx: _, version: _ } => if lookup == Lookup::Scan {
            12
        } else {
            9
        },
        Agent::Locate { lookup, idx: _, version: _ } => if lookup == Lookup::Scan {
            13
        } else {
            10
        },
        Agent::CloneAdd { .. } => 1,
        Agent::ReserveLen { .. } => (2 * s.slots.len() + 31) as nat,
        Agent::ReserveScan { next, len, in_use: _, additional: _ } => (2 * (len - next) + 30) as nat,
        Agent::ReserveCount { next, len, in_use: _, additional: _ } => (2 * (len - next) + 29) as nat,
        Agent::ReserveLoad { chunk, last } => (2 * (last - chunk) + 2) as nat,
        Agent::ReserveInstall { chunk, last } => (2 * (last - chunk) + 1) as nat,
        _ => 0,
    }
}

/// Whether a step of agent `t`, which is left alone, takes it nearer to its end.
spec fn advances<V>(w: World<V>, t: int, reply: Option<V>) -> bool {
    let n = w.step(t, false, reply);
    &&& tag_is_recent(n, t)
    &&& rank(n, t) < rank(w, t)
    &&& is_reservation(n.agents[t]) ==> is_reservation(w.agents[t])
}

/// What a step of an agent that is left alone depends on.
spec fn runs<V>(w: World<V>, t: int) -> bool {
    &&& 0 <= t < w.agents.len() == w.seen.len()
    &&& w.agent_ok(t)
    &&& tag_is_recent(w, t)
    &&& w.state.slots.len() <= u32::MAX
    &&& w.state.present.len() == CHUNKS
    &&& !(w.agents[t].wants() is Stop)
    &&& !stuck(w, t)
}

/// Whether an agent inserts or frees.
spec fn writes(agent: Agent) -> bool {
    match agent {
        Agent::PopLoad => true,
        Agent::PopNext { .. } => true,
        Agent::PopCas { .. } => true,
        Agent::GrowLen => true,
        Agent::ChunkLoad { .. } => true,
        Agent::ChunkInstall { .. } => true,
        Agent::VersionLoad { .. } => true,
        Agent::Claimed { .. } => true,
        Agent::DataWrite { .. } => true,
        Agent::RefStore { .. } => true,
        Agent::VersionStore { .. } => true,
        Agent::NumAdd { .. } => true,
        Agent::FreeLoad { .. } => true,
        Agent::FreeLink { .. } => true,
        Agent::FreeCas { .. } => true,
        _ => false,
    }
}

/// An insertion, or whoever frees a slot, comes nearer to its end.
#[verifier::rlimit(50)]
proof fn lemma_writer_advances<V>(w: World<V>, t: int, reply: Option<V>)
    requires
        runs(w, t),
        writes(w.agents[t]),
    ensures
        advances(w, t, reply),
{
    match w.agents[t] {
        Agent::ChunkLoad { idx } => {
            lemma_chunk_of(idx as int);
        },
        Agent::ChunkInstall { idx } => {
            lemma_chunk_of(idx as int);
        },
        _ => {},
    }
}

/// A reservation comes nearer to its end.
#[verifier::rlimit(50)]
proof fn lemma_reservation_advances<V>(w: World<V>, t: int, reply: Option<V>)
    requires
        runs(w, t),
        is_reservation(w.agents[t]),
    ensures
        advances(w, t, reply),
{
    let s = w.state;
    match w.agents[t] {
        Agent::ReserveLen { additional } => {
            lemma_planned_chunk(s.slots.len() as u32, 0, additional);
        },
        Agent::ReserveScan { next, len, in_use, additional } => {
            lemma_chunk_of(next as int);
            lemma_planned_chunk(len, in_use, additional);
        },
        Agent::ReserveCount { next: _, len, in_use, additional } => {
            lemma_planned_chunk(len, in_use, additional);
            lemma_planned_chunk(len, next_word(in_use), additional);
        },
        _ => {},
    }
}

/// A reservation makes no more chunks than there can be.
proof fn lemma_planned_chunk(len: u32, in_use: u32, additional: usize)
    ensures
        planned(len, in_use, additional) matches Agent::ReserveLoad { chunk, last } ==> chunk == 0
            && last < CHUNKS,
{
    let target = slots_needed(len as nat, in_use as nat, additional as nat);
    if 0 < target <= max_capacity() {
        lemma_chunk_of(target - 1);
    }
}

/// A lookup, or whoever gives a reference back, comes nearer to its end.
#[verifier::rlimit(50)]
proof fn lemma_looker_advances<V>(w: World<V>, t: int, reply: Option<V>)
    requires
        runs(w, t),
        !writes(w.agents[t]),
        !is_reservation(w.agents[t]),
    ensures
        advances(w, t, reply),
{
    match w.agents[t] {
        Agent::Await { lookup: _, idx, version: _ } => {
            lemma_chunk_of(idx as int);
        },
        _ => {},
    }
}

/// Every step of an agent that is left alone takes it nearer to its end.
#[verifier::rlimit(50)]
proof fn lemma_rank_step<V>(w: World<V>, t: int, reply: Option<V>)
    requires
        w.inv(),
        0 <= t < w.agents.len(),
        tag_is_recent(w, t),
        !(w.agents[t].wants() is Stop),
        !stuck(w, t),
    ensures
        w.step(t, false, reply).inv(),
        advances(w, t, reply),
{
    assert(w.agent_ok(t));
    lemma_max_len();
    lemma_step(w, t, false, reply);
    assert(runs(w, t));
    if writes(w.agents[t]) {
        lemma_writer_advances(w, t, reply);
    } else if is_reservation(w.agents[t]) {
        lemma_reservation_advances(w, t, reply);
    } else {
        lemma_looker_advances(w, t, reply);
    }
}

/// An agent that is left alone ends, or is stuck, within as many steps as its rank says.
proof fn lemma_ends_by_rank<V>(w: World<V>, t: int, reply: Option<V>)
    requires
        w.inv(),
        0 <= t < w.agents.len(),
        tag_is_recent(w, t),
    ensures
        exists|k: nat|
            k <= rank(w, t) && ((#[trigger] solo(w, t, reply, k)).agents[t].wants() is Stop || stuck(
                solo(w, t, reply, k),
                t,
            )),
    decreases rank(w, t),
{
    if w.agents[t].wants() is Stop || stuck(w, t) {
        assert(solo(w, t, reply, 0) == w);
    } else {
        lemma_rank_step(w, t, reply);
        let n = w.step(t, false, reply);
        lemma_ends_by_rank(n, t, reply);
        let k = choose|k: nat|
            k <= rank(n, t) && ((#[trigger] solo(n, t, reply, k)).agents[t].wants() is Stop || stuck(
                solo(n, t, reply, k),
                t,
            ));
        assert(solo(w, t, reply, k + 1) == solo(n, t, reply, k));
    }
}

/// Progress: wherever an agent is, whatever the others did before, it ends within thirteen steps once it is left
/// alone, and a reservation within two for each slot and thirty-one more. No failed exchange is tried again
/// with what has failed. The exceptions are a chunk that another insertion is about to make, a full map, and
/// a clone beyond what can be counted.
pub proof fn lemma_left_alone_it_ends<V>(w: World<V>, t: int, reply: Option<V>)
    requires
        w.inv(),
        0 <= t < w.agents.len(),
        tag_is_recent(w, t),
    ensures
        exists|k: nat|
            k <= (if is_reservation(w.agents[t]) {
                2 * w.state.slots.len() + 31
            } else {
                13
            }) && ((#[trigger] solo(w, t, reply, k)).agents[t].wants() is Stop || stuck(
                solo(w, t, reply, k),
                t,
            )),
{
    lemma_ends_by_rank(w, t, reply);
    assert(w.agent_ok(t));
    assert(rank(w, t) <= (if is_reservation(w.agents[t]) {
        2 * w.state.slots.len() + 31
    } else {
        13
    }));
}

/// A lookup that takes a reference and is left alone from where it is gets one at its next exchange or the
/// one after it.
#[verifier::rlimit(50)]
pub proof fn lemma_second_exchange_succeeds<V>(w: World<V>, t: int, reply: Option<V>)
    requires
        w.inv(),
        0 <= t < w.agents.len(),
        w.agents[t] is RefCas,
        0 < w.state.slots[w.agents[t]->RefCas_idx as int].ref_count <= MAX_REFCOUNT,
    ensures
        ({
            let idx = w.agents[t]->RefCas_idx;
            let holding = Agent::RefCheck { idx, version: w.agents[t]->RefCas_version };
            let n = w.step(t, false, reply);
            n.agents[t] == holding || n.step(t, false, reply).agents[t] == holding
        }),
{
    assert(w.agent_ok(t));
}

/// Whether a lookup of a key that is in the map can get its guard: it holds a reference, or one can be had.
spec fn may_find<V>(w: World<V>, t: int, key: KeyView) -> bool {
    &&& is_getting(w.agents[t], key)
    &&& w.state.live().contains_key(key)
    &&& w.agents[t] is RefCheck || w.state.slots[key.idx as int].ref_count <= MAX_REFCOUNT
}

/// A lookup that finds its key goes on to find it.
#[verifier::rlimit(50)]
proof fn lemma_finding_step<V>(w: World<V>, t: int, reply: Option<V>, key: KeyView)
    requires
        w.inv(),
        0 <= t < w.agents.len(),
        may_find(w, t, key),
    ensures
        !(w.agents[t].wants() is Stop),
        !stuck(w, t),
        tag_is_recent(w, t),
        ({
            let n = w.step(t, false, reply);
            n.agents[t] == (Agent::Guarding { idx: key.idx, version: key.version }) || may_find(
                n,
                t,
                key,
            )
        }),
{
    let n = w.step(t, false, reply);
    let event = w.state.event(w.agents[t].wants(), false, w.payloads[t]);
    assert(w.agent_ok(t));
    assert(w.slot_ok(key.idx as int));
    lemma_chunk_of(key.idx as int);
    lemma_count_nonnegative(w.agents, Role::Builder, key.idx as int);
    lemma_count_nonnegative(w.agents, Role::Owner, key.idx as int);
    lemma_count_nonnegative(w.agents, Role::Holder, key.idx as int);
    lemma_count_subset(w.agents, key.idx as int);
    lemma_lookup_step(w, t, false, reply);
    lemma_live_step(w, t, false, reply);
    lemma_getting_on(w.agents[t], event, key);
}

/// A lookup of a key that is in the map gets its guard once it is left alone, wherever it is, unless there are
/// more references than may be.
pub proof fn lemma_left_alone_lookup_gets_its_guard<V>(
    w: World<V>,
    t: int,
    reply: Option<V>,
    key: KeyView,
)
    requires
        w.inv(),
        0 <= t < w.agents.len(),
        is_getting(w.agents[t], key),
        w.state.live().contains_key(key),
        w.state.slots[key.idx as int].ref_count <= MAX_REFCOUNT,
    ensures
        exists|k: nat|
            k <= 13 && (#[trigger] solo(w, t, reply, k)).agents[t] == (Agent::Guarding {
                idx: key.idx,
                version: key.version,
            }),
{
    lemma_finds_by_rank(w, t, reply, key);
    assert(rank(w, t) <= 13);
}

/// A lookup that finds its key gets its guard within as many steps as its rank says.
proof fn lemma_finds_by_rank<V>(w: World<V>, t: int, reply: Option<V>, key: KeyView)
    requires
        w.inv(),
        0 <= t < w.agents.len(),
        may_find(w, t, key),
    ensures
        exists|k: nat|
            k <= rank(w, t) && (#[trigger] solo(w, t, reply, k)).agents[t] == (Agent::Guarding {
                idx: key.idx,
                version: key.version,
            }),
    decreases rank(w, t),
{
    let n = w.step(t, false, reply);
    lemma_finding_step(w, t, reply, key);
    lemma_rank_step(w, t, reply);
    if n.agents[t] == (Agent::Guarding { idx: key.idx, version: key.version }) {
        assert(solo(n, t, reply, 0) == n);
        assert(solo(w, t, reply, 1) == solo(n, t, reply, 0));
    } else {
        lemma_finds_by_rank(n, t, reply, key);
        let k = choose|k: nat|
            k <= rank(n, t) && (#[trigger] solo(n, t, reply, k)).agents[t] == (Agent::Guarding {
                idx: key.idx,
                version: key.version,
            });
        assert(solo(w, t, reply, k + 1) == solo(n, t, reply, k));
    }
}

/// An insertion takes a fresh slot only where the free list is empty at the moment at which it decides to:
/// slots that are free are used again.
#[verifier::rlimit(50)]
pub proof fn lemma_grows_only_when_nothing_is_free<V>(
    w: World<V>,
    t: int,
    weak: bool,
    reply: Option<V>,
)
    requires
        w.inv(),
        w.can_step(t),
        !(w.agents[t] is GrowLen),
        w.step(t, weak, reply).agents[t] is GrowLen,
    ensures
        w.state.free.len() == 0,
{
    assert(w.agent_ok(t));
    if w.state.free.len() > 0 {
        lemma_max_len();
        assert(w.state.free[0] < w.state.slots.len());
    }
}

/// An insertion goes on as one until its key is in the map and counted. It gives its slot back only where its
/// caller refuses the value.
#[verifier::rlimit(50)]
pub proof fn lemma_insertion_step<V>(w: World<V>, t: int, weak: bool, reply: Option<V>)
    requires
        w.inv(),
        w.can_step(t),
        is_claiming(w.agents[t]) || is_filling(w.agents[t]) || is_publishing(w.agents[t])
            || is_published(w.agents[t]),
    ensures
        ({
            let next = w.step(t, weak, reply).agents[t];
            if w.agents[t] is Claimed && reply is None {
                errand(next) == Some((w.agents[t]->Claimed_idx, After::Refuse))
            } else {
                is_claiming(next) || is_filling(next) || is_publishing(next) || is_published(next)
            }
        }),
{
    assert(w.agent_ok(t));
}

/// A reservation goes on with the same chunks until it has made the last of them.
#[verifier::rlimit(50)]
pub proof fn lemma_reserving_step<V>(w: World<V>, t: int, weak: bool, reply: Option<V>)
    requires
        w.inv(),
        w.can_step(t),
        w.agents[t] is ReserveLoad || w.agents[t] is ReserveInstall,
    ensures
        ({
            let (at, end) = match w.agents[t] {
                Agent::ReserveLoad { chunk, last } => (chunk, last),
                Agent::ReserveInstall { chunk, last } => (chunk, last),
                _ => (0, 0),
            };
            let n = w.step(t, weak, reply);
            match n.agents[t] {
                Agent::ReserveLoad { chunk, last } => last == end && chunk == at + 1
                    && n.state.present[at as int],
                Agent::ReserveInstall { chunk, last } => last == end && chunk == at
                    && w.agents[t] is ReserveLoad && !n.state.present[at as int],
                next => next == Agent::Reserved && at == end && n.state.present[at as int],
            }
        }),
{
    assert(w.agent_ok(t));
}

/// What an agent is to do once the slot is free, if it is giving a reference or a slot back.
pub open spec fn errand(agent: Agent) -> Option<(u32, After)> {
    match agent {
        Agent::RefDrop { idx, after } => Some((idx, after)),
        Agent::ValueDrop { idx, after } => Some((idx, after)),
        Agent::FreeLoad { idx, after } => Some((idx, after)),
        Agent::FreeLink { idx, head: _, after } => Some((idx, after)),
        Agent::FreeCas { idx, head: _, after } => Some((idx, after)),
        _ => None,
    }
}

/// Whoever gives back a reference or a slot goes on with the same slot for the same purpose, until it is
/// through, and then ends the operation that it began: an insertion as refused, a lookup without a guard, a
/// release as done, and a removal goes on to count itself. The last reference is not given back without
/// dropping the value and freeing the slot.
#[verifier::rlimit(50)]
pub proof fn lemma_errand_step<V>(w: World<V>, t: int, weak: bool, reply: Option<V>)
    requires
        w.inv(),
        w.can_step(t),
        errand(w.agents[t]) is Some,
    ensures
        ({
            let (idx, after) = errand(w.agents[t])->0;
            let n = w.step(t, weak, reply);
            let next = n.agents[t];
            let through = match after {
                After::Refuse => next == Agent::Refused,
                After::Remove => next == Agent::NumSub,
                After::Lookup => next == Agent::Missing,
                After::Release => next == Agent::Released,
            };
            &&& through || errand(next) == Some((idx, after))
            &&& through ==> n.state.free.contains(idx) || n.state.slots[idx as int].ref_count > 0
        }),
{
    assert(w.agent_ok(t));
    let (idx, after) = errand(w.agents[t])->0;
    let n = w.step(t, weak, reply);
    assert(w.slot_ok(idx as int));
    lemma_count_nonnegative(w.agents, Role::Holder, idx as int);
    if has_role(Role::Holder, w.agents[t], idx as int) {
        lemma_counted(w.agents, t, Role::Holder, idx as int);
    }
    match w.agents[t] {
        Agent::FreeCas { .. } => {
            if n.state.free.len() > 0 && n.state.free[0] == idx {
                assert(n.state.free.contains(idx));
            }
        },
        _ => {},
    }
}

/// A clone is refused exactly where there are more references than may be, and it is counted either way.
#[verifier::rlimit(50)]
pub proof fn lemma_clone_step<V>(w: World<V>, t: int, weak: bool, reply: Option<V>)
    requires
        w.inv(),
        w.can_step(t),
        w.agents[t] is CloneAdd,
    ensures
        ({
            let idx = w.agents[t]->CloneAdd_idx as int;
            let n = w.step(t, weak, reply);
            &&& n.agents[t] == (if w.state.slots[idx].ref_count > MAX_REFCOUNT {
                Agent::Overflowed
            } else {
                Agent::Cloned
            })
            &&& n.state.slots[idx].ref_count == w.state.slots[idx].ref_count + 1
        }),
{
    assert(w.agent_ok(t));
}

/// A lookup does not take a reference where there are more than may be.
#[verifier::rlimit(50)]
pub proof fn lemma_too_many_references<V>(w: World<V>, t: int, weak: bool, reply: Option<V>)
    requires
        w.inv(),
        w.can_step(t),
        w.agents[t] matches Agent::RefLoad { idx, version: _ } ==> w.state.slots[
            idx as int].ref_count > MAX_REFCOUNT,
        w.agents[t] matches Agent::RefCas { idx, version: _, count: _ } ==> w.state.slots[
            idx as int].ref_count > MAX_REFCOUNT,
        w.agents[t] is RefLoad || w.agents[t] is RefCas,
    ensures
        w.step(t, weak, reply).agents[t] == Agent::Overflowed,
        w.step(t, weak, reply).state == w.state,
{
    assert(w.agent_ok(t));
}

/// How far a reservation has counted: the slots before the first number, of so many, with so many in use, for so
/// many elements more.
pub open spec fn tally(agent: Agent) -> Option<(u32, u32, u32, usize)> {
    match agent {
        Agent::ReserveScan { next, len, in_use, additional } => Some((next, len, in_use, additional)),
        Agent::ReserveCount { next, len, in_use, additional } => Some((next, len, in_use, additional)),
        _ => None,
    }
}

/// A reservation begins to count at the first of the slots that there are.
#[verifier::rlimit(50)]
pub proof fn lemma_reservation_begins<V>(w: World<V>, t: int, weak: bool, reply: Option<V>)
    requires
        w.inv(),
        w.can_step(t),
        w.agents[t] is ReserveLen,
        w.state.slots.len() > 0,
    ensures
        tally(w.step(t, weak, reply).agents[t]) == Some(
            (0u32, w.state.slots.len() as u32, 0u32, w.agents[t]->ReserveLen_additional),
        ),
{
    assert(w.agent_ok(t));
}

/// Whether the chunks of a reservation are enough for so many slots: it makes them, or needs none, or says that
/// there cannot be so many.
pub open spec fn provides(agent: Agent, slots: int) -> bool {
    match agent {
        Agent::ReserveLoad { chunk, last } => chunk == 0 && slots > 0 && chunk_start(last as nat)
            < slots <= chunk_start((last + 1) as nat) && slots <= max_capacity(),
        Agent::Reserved => slots == 0,
        Agent::TooLarge => slots > max_capacity(),
        _ => false,
    }
}

/// A reservation counts each slot by whether somebody refers to it at that moment, whatever the others do, and
/// once it has counted all of them it provides for the larger one of the slots that there were and of those in
/// use together with the elements that are to fit.
#[verifier::rlimit(80)]
pub proof fn lemma_reservation_step<V>(w: World<V>, t: int, weak: bool, reply: Option<V>)
    requires
        w.inv(),
        w.can_step(t),
        tally(w.agents[t]) is Some,
    ensures
        ({
            let (next, len, in_use, additional) = tally(w.agents[t])->0;
            let used = in_use + (if w.state.slots[next as int].ref_count > 0 {
                1int
            } else {
                0int
            });
            let after = w.step(t, weak, reply).agents[t];
            ||| w.agents[t] is ReserveScan && after is ReserveCount && tally(after) == tally(
                w.agents[t],
            )
            ||| next + 1 < len && tally(after) == Some(
                ((next + 1) as u32, len, used as u32, additional),
            )
            ||| next + 1 == len && provides(
                after,
                if used + additional >= len {
                    used + additional
                } else {
                    len as int
                },
            )
        }),
{
    assert(w.agent_ok(t));
    let (next, len, in_use, additional) = tally(w.agents[t])->0;
    lemma_chunk_of(next as int);
    if !w.state.reachable(next) {
        assert(w.slot_ok(next as int));
        lemma_count_subset(w.agents, next as int);
        lemma_count_nonnegative(w.agents, Role::Builder, next as int);
        lemma_count_nonnegative(w.agents, Role::Owner, next as int);
        assert(w.state.slots[next as int].ref_count == 0);
    }
    let used = in_use + (if w.state.slots[next as int].ref_count > 0 {
        1int
    } else {
        0int
    });
    let most = if used + additional >= len {
        used + additional
    } else {
        len as int
    };
    if 0 < most <= max_capacity() {
        lemma_chunk_of(most - 1);
    }
}

} // verus!
