//! Every step of every agent keeps what holds at every moment.
#[allow(unused_imports)]
use crate::chunks::{lemma_chunk_addressable, max_capacity, prefix_closed, slots_needed};
#[allow(unused_imports)]
use crate::count::{
    count, has_role, lemma_count_none, lemma_count_nonnegative, lemma_count_subset, lemma_counted,
    lemma_counts_push, lemma_counts_update, lemma_uncounted, Role,
};
#[allow(unused_imports)]
use crate::head::{head_index, lemma_next_tag, lemma_packed_head, SENTINEL};
#[allow(unused_imports)]
use crate::location::{
    chunk_of, chunk_start, lemma_chunk_of, lemma_chunk_of_is, lemma_chunk_start_monotone, CHUNKS,
};
#[allow(unused_imports)]
use crate::protocol::{finishing, next_word, planned, After, Agent};
#[allow(unused_imports)]
use crate::settled::{lemma_popped, lemma_pushed};
#[allow(unused_imports)]
use crate::slot::{occupied, zeroed_slot};
#[allow(unused_imports)]
use crate::state::{
    lemma_occupied_bound, lemma_occupied_push, lemma_occupied_update, link, stored_version, State,
};
#[allow(unused_imports)]
use crate::util::KeyView;
#[allow(unused_imports)]
use crate::world::World;
#[allow(unused_imports)]
use vstd::prelude::*;

verus! {

broadcast use {lemma_packed_head, lemma_next_tag};

/// The counter stays right where it and what it counts change alike, a wrap included.
proof fn lemma_num<V>(w: World<V>, n: World<V>)
    requires
        w.num_ok(),
        n.num_gap() == w.num_gap() || n.num_gap() == w.num_gap() - 0x1_0000_0000 || n.num_gap()
            == w.num_gap() + 0x1_0000_0000,
    ensures
        n.num_ok(),
{
    reveal(World::num_ok);
}

/// More slots in use, and the same chunks.
proof fn lemma_chunks<V>(w: World<V>, n: World<V>)
    requires
        w.chunks_ok(),
        n.state.present == w.state.present,
        n.state.slots.len() >= w.state.slots.len(),
    ensures
        n.chunks_ok(),
{
    reveal(World::chunks_ok);
}

/// One chunk more, with all chunks before it there or in use.
proof fn lemma_chunks_update<V>(w: World<V>, n: World<V>, c: int)
    requires
        w.chunks_ok(),
        w.state.present.len() == CHUNKS,
        0 <= c < CHUNKS,
        n.state.present == w.state.present.update(c, true),
        n.state.slots.len() == w.state.slots.len(),
        forall|j: int|
            0 <= j < c && !(#[trigger] w.state.present[j]) ==> chunk_start(j as nat)
                < w.state.slots.len(),
    ensures
        n.chunks_ok(),
{
    reveal(World::chunks_ok);
}

/// An agent goes on without touching the memory and without a change of role.
#[verifier::rlimit(50)]
proof fn lemma_local<V>(w: World<V>, n: World<V>, t: int)
    requires
        w.inv(),
        0 <= t < w.agents.len(),
        n.agents == w.agents.update(t, n.agents[t]),
        n.state == w.state,
        n.ops == w.ops,
        n.guards == w.guards,
        n.log == w.log,
        n.payloads.len() == w.payloads.len(),
        n.seen.len() == w.seen.len(),
        forall|u: int|
            0 <= u < w.agents.len() && u != t ==> #[trigger] n.payloads[u] == w.payloads[u],
        forall|u: int| 0 <= u < w.agents.len() && u != t ==> #[trigger] n.seen[u] == w.seen[u],
        forall|role: Role, i: int| #[trigger]
            has_role(role, w.agents[t], i) == has_role(role, n.agents[t], i),
        n.agent_ok(t),
    ensures
        n.inv(),
{
    lemma_counts_update(w.agents, t, n.agents[t]);
    assert(forall|role: Role, i: int| #[trigger]
        count(n.agents, role, i) == count(w.agents, role, i));
    assert forall|u: int| 0 <= u < n.agents.len() implies #[trigger] n.agent_ok(u) by {
        if u != t {
            assert(w.agent_ok(u));
        }
    }
    assert forall|i: int| 0 <= i < n.state.slots.len() implies #[trigger] n.slot_ok(i) by {
        assert(w.slot_ok(i));
    }
    lemma_num(w, n);
    lemma_chunks(w, n);
}

/// A slot that nobody owns can be reached.
proof fn lemma_unowned_reachable<V>(w: World<V>, i: int)
    requires
        w.inv(),
        0 <= i < w.state.slots.len(),
        count(w.agents, Role::Owner, i) <= 0,
    ensures
        w.state.reachable(i as u32),
{
    assert(w.slot_ok(i));
    lemma_count_subset(w.agents, i);
    lemma_count_nonnegative(w.agents, Role::Builder, i);
}

/// The head of the free list is the sentinel or a slot that can be reached.
proof fn lemma_head_reachable<V>(w: World<V>)
    requires
        w.inv(),
    ensures
        head_index(w.state.free_head) != SENTINEL ==> w.state.reachable(
            head_index(w.state.free_head),
        ) && w.state.free.len() > 0 && w.state.free[0] == head_index(w.state.free_head),
{
    if head_index(w.state.free_head) != SENTINEL {
        let i = w.state.free[0];
        assert(w.state.free.contains(i));
        assert(w.slot_ok(i as int));
        lemma_count_nonnegative(w.agents, Role::Owner, i as int);
        lemma_unowned_reachable(w, i as int);
    }
}

/// Whether the next action of agent `t` only reads, or fails to exchange, and leaves the agent in
/// its role.
pub open spec fn is_quiet<V>(w: World<V>, t: int, weak: bool) -> bool {
    match w.agents[t] {
        Agent::PopLoad => true,
        Agent::PopNext { .. } => true,
        Agent::PopCas { head, next: _ } => w.state.free_head != head || weak,
        Agent::ChunkLoad { idx } => !w.state.present[chunk_of(idx as int) as int],
        Agent::VersionLoad { .. } => true,
        Agent::Claimed { .. } => true,
        Agent::FreeLoad { .. } => true,
        Agent::FreeCas { idx: _, head, after: _ } => w.state.free_head != head || weak,
        Agent::Locate { .. } => true,
        Agent::Await { .. } => true,
        Agent::RemoveLoad { .. } => true,
        Agent::RemoveCas { idx, version } => w.state.slots[idx as int].version != version,
        Agent::RefLoad { .. } => true,
        Agent::RefCas { idx, version: _, count } => w.state.slots[idx as int].ref_count != count
            || weak,
        Agent::RefCheck { idx, version } => w.state.slots[idx as int].version != version,
        Agent::ContainsLoad { .. } => true,
        Agent::ScanLoad { .. } => true,
        Agent::ReserveLen { .. } => true,
        Agent::ReserveScan { .. } => true,
        Agent::ReserveCount { .. } => true,
        Agent::ReserveLoad { .. } => true,
        Agent::TooLarge => true,
        Agent::Exhausted => true,
        Agent::Reserved => true,
        Agent::Inserted { .. } => true,
        Agent::Refused => true,
        Agent::Removed { .. } => true,
        Agent::Guarding { .. } => true,
        Agent::Missing => true,
        Agent::Contained { .. } => true,
        Agent::Released => true,
        Agent::Cloned => true,
        Agent::Overflowed => true,
        _ => false,
    }
}

/// The chunks that a reservation goes on to make can be addressed.
proof fn lemma_planned(len: u32, in_use: u32, additional: usize)
    ensures
        planned(len, in_use, additional) matches Agent::ReserveLoad { chunk, last } ==> chunk == 0
            && last < CHUNKS && chunk_start((last + 1) as nat) <= usize::MAX,
{
    let target = slots_needed(len as nat, in_use as nat, additional as nat);
    if 0 < target <= max_capacity() {
        lemma_chunk_addressable(target - 1);
    }
}

/// Whether an agent is a reservation that counts the slots.
spec fn is_scanning(agent: Agent) -> bool {
    agent is ReserveLen || agent is ReserveScan || agent is ReserveCount
}

/// A step of a reservation that counts the slots keeps the invariant.
#[verifier::rlimit(50)]
proof fn lemma_scanning_step<V>(w: World<V>, t: int, weak: bool, reply: Option<V>)
    requires
        w.inv(),
        w.can_step(t),
        is_scanning(w.agents[t]),
    ensures
        w.step(t, weak, reply).inv(),
{
    let n = w.step(t, weak, reply);
    assert(w.agent_ok(t));
    match w.agents[t] {
        Agent::ReserveLen { additional } => {
            lemma_planned(w.state.slots.len() as u32, 0, additional);
        },
        Agent::ReserveScan { next, len, in_use, additional } => {
            lemma_chunk_of(next as int);
            lemma_planned(len, in_use, additional);
        },
        Agent::ReserveCount { next: _, len, in_use, additional } => {
            lemma_planned(len, in_use, additional);
            lemma_planned(len, next_word(in_use), additional);
        },
        _ => {},
    }
    assert(n.agent_ok(t));
    assert(forall|role: Role, i: int| #[trigger]
        has_role(role, w.agents[t], i) == has_role(role, n.agents[t], i));
    lemma_local(w, n, t);
}

/// Whether an agent is an insertion that has not written its value yet, or one that frees a slot.
spec fn is_taking(agent: Agent) -> bool {
    agent is PopLoad || agent is PopNext || agent is PopCas || agent is ChunkLoad
        || agent is VersionLoad || agent is Claimed || agent is FreeLoad || agent is FreeCas
}

/// A quiet step of an insertion, or of an agent that frees a slot, keeps the invariant.
#[verifier::rlimit(50)]
proof fn lemma_taking_step<V>(w: World<V>, t: int, weak: bool, reply: Option<V>)
    requires
        w.inv(),
        w.can_step(t),
        is_quiet(w, t, weak),
        is_taking(w.agents[t]),
    ensures
        w.step(t, weak, reply).inv(),
{
    let n = w.step(t, weak, reply);
    assert(w.agent_ok(t));
    lemma_head_reachable(w);
    match w.agents[t] {
        Agent::ChunkLoad { idx } => {
            lemma_chunk_of(idx as int);
        },
        Agent::VersionLoad { idx } => {
            assert(w.slot_ok(idx as int));
            lemma_counted(w.agents, t, Role::Owner, idx as int);
            lemma_count_nonnegative(w.agents, Role::Holder, idx as int);
        },
        _ => {},
    }
    assert(n.agent_ok(t));
    assert(forall|role: Role, i: int| #[trigger]
        has_role(role, w.agents[t], i) == has_role(role, n.agents[t], i));
    lemma_local(w, n, t);
}

/// A step of an agent that is done changes nothing.
#[verifier::rlimit(50)]
proof fn lemma_stopped_step<V>(w: World<V>, t: int, weak: bool, reply: Option<V>)
    requires
        w.inv(),
        w.can_step(t),
        w.agents[t].wants() is Stop,
    ensures
        w.step(t, weak, reply).inv(),
{
    let n = w.step(t, weak, reply);
    assert(w.agent_ok(t));
    assert(n.agents[t] == w.agents[t]);
    assert(n.agents =~= w.agents);
    assert(n == w);
}

/// A quiet step of a lookup keeps the invariant.
#[verifier::rlimit(50)]
proof fn lemma_looking_step<V>(w: World<V>, t: int, weak: bool, reply: Option<V>)
    requires
        w.inv(),
        w.can_step(t),
        is_quiet(w, t, weak),
        !is_scanning(w.agents[t]),
        !is_taking(w.agents[t]),
        !(w.agents[t].wants() is Stop),
    ensures
        w.step(t, weak, reply).inv(),
{
    let n = w.step(t, weak, reply);
    assert(w.agent_ok(t));
    match w.agents[t] {
        Agent::Await { lookup: _, idx, version: _ } => {
            lemma_chunk_of(idx as int);
        },
        _ => {},
    }
    assert(n.agent_ok(t));
    assert(forall|role: Role, i: int| #[trigger]
        has_role(role, w.agents[t], i) == has_role(role, n.agents[t], i));
    lemma_local(w, n, t);
}

/// A quiet step keeps the invariant.
proof fn lemma_quiet_step<V>(w: World<V>, t: int, weak: bool, reply: Option<V>)
    requires
        w.inv(),
        w.can_step(t),
        is_quiet(w, t, weak),
    ensures
        w.step(t, weak, reply).inv(),
{
    if is_scanning(w.agents[t]) {
        lemma_scanning_step(w, t, weak, reply);
    } else if is_taking(w.agents[t]) {
        lemma_taking_step(w, t, weak, reply);
    } else if w.agents[t].wants() is Stop {
        lemma_stopped_step(w, t, weak, reply);
    } else {
        lemma_looking_step(w, t, weak, reply);
    }
}

/// An agent changes one slot, and no other agent is disturbed by that.
#[verifier::rlimit(50)]
proof fn lemma_one_slot<V>(w: World<V>, n: World<V>, t: int, idx: int)
    requires
        w.inv(),
        0 <= t < w.agents.len(),
        0 <= idx < w.state.slots.len(),
        n.agents == w.agents.update(t, n.agents[t]),
        n.state == w.state.with_slot(idx as u32, n.state.slots[idx]),
        n.ops == w.ops,
        n.seen == w.seen,
        n.payloads.len() == w.payloads.len(),
        forall|u: int|
            0 <= u < w.agents.len() && u != t ==> #[trigger] n.payloads[u] == w.payloads[u],
        n.guards.len() == w.guards.len(),
        forall|i: int| 0 <= i < w.guards.len() && i != idx ==> #[trigger] n.guards[i] == w.guards[i],
        forall|key: KeyView|
            key.idx != idx && #[trigger] w.log.contains_key(key) ==> n.log.contains_key(key)
                && n.log[key] == w.log[key],
        forall|role: Role, i: int|
            i != idx && !(role is Adder || role is Subtractor) ==> #[trigger] has_role(
                role,
                w.agents[t],
                i,
            ) == has_role(role, n.agents[t], i),
        // The other agents.
        forall|u: int|
            0 <= u < w.agents.len() && u != t ==> !has_role(
                Role::Owner,
                #[trigger] w.agents[u],
                idx,
            ),
        n.state.slots[idx].version == w.state.slots[idx].version || forall|u: int|
            0 <= u < w.agents.len() && u != t ==> !has_role(
                Role::Publisher,
                #[trigger] w.agents[u],
                idx,
            ),
        n.state.slots[idx].next_free == w.state.slots[idx].next_free || !w.state.free.contains(
            idx as u32,
        ),
        !has_role(Role::Publisher, n.agents[t], idx) || w.state.slots[idx].ref_count == 0,
        // This agent, its slot and the counter.
        n.agent_ok(t),
        n.slot_ok(idx),
        n.num_ok(),
    ensures
        n.inv(),
{
    lemma_counts_update(w.agents, t, n.agents[t]);
    lemma_chunks(w, n);
    assert(w.slot_ok(idx));
    assert forall|i: int|
        0 <= i < n.state.free.len() implies (#[trigger] n.state.free[i]) < n.state.slots.len()
        && n.state.slots[n.state.free[i] as int].next_free == link(n.state.free, i + 1) by {
        assert(w.state.free[i] < w.state.slots.len());
        assert(w.state.free.contains(w.state.free[i]));
    }
    assert(n.state.free_ok());
    assert forall|i: int| 0 <= i < n.state.slots.len() implies #[trigger] n.slot_ok(i) by {
        if i != idx {
            assert(w.slot_ok(i));
            assert(forall|role: Role|
                !(role is Adder || role is Subtractor) ==> #[trigger] count(n.agents, role, i)
                    == count(w.agents, role, i));
            assert(n.state.slots[i] == w.state.slots[i]);
        }
    }
    assert forall|u: int| 0 <= u < n.agents.len() implies #[trigger] n.agent_ok(u) by {
        if u != t {
            assert(w.agent_ok(u));
            assert(n.agents[u] == w.agents[u]);
            match w.agents[u] {
                Agent::RefDrop { idx: j, after } => {
                    if j == idx && has_role(Role::Publisher, n.agents[t], idx) {
                        lemma_counted(w.agents, u, Role::Holder, idx);
                        assert(false);
                    }
                    lemma_count_nonnegative(n.agents, Role::Publisher, j as int);
                },
                Agent::PopCas { head, next: _ } => {
                    if head_index(head) == idx && w.seen[u] == w.ops {
                        lemma_head_reachable(w);
                        assert(w.state.free.contains(w.state.free[0]));
                    }
                },
                _ => {},
            }
        }
    }
}

/// Nobody but agent `t` owns a slot that it owns.
#[verifier::rlimit(50)]
pub proof fn lemma_sole_owner<V>(w: World<V>, t: int, idx: int)
    requires
        w.inv(),
        0 <= t < w.agents.len(),
        0 <= idx < w.state.slots.len(),
        has_role(Role::Owner, w.agents[t], idx),
    ensures
        forall|u: int|
            0 <= u < w.agents.len() && u != t ==> !has_role(
                Role::Owner,
                #[trigger] w.agents[u],
                idx,
            ),
        count(w.agents, Role::Owner, idx) == 1,
        !w.state.free.contains(idx as u32),
        w.state.slots[idx].ref_count == 0,
        w.guards[idx] == 0,
        !occupied(w.state.slots[idx].version),
        count(w.agents, Role::Holder, idx) == 0,
        count(w.agents, Role::Publisher, idx) == 0,
{
    assert(w.slot_ok(idx));
    lemma_counted(w.agents, t, Role::Owner, idx);
    lemma_count_nonnegative(w.agents, Role::Holder, idx);
    lemma_count_nonnegative(w.agents, Role::Publisher, idx);
    lemma_count_subset(w.agents, idx);
}

/// Nobody owns a referenced slot.
pub proof fn lemma_no_owner<V>(w: World<V>, idx: int)
    requires
        w.inv(),
        0 <= idx < w.state.slots.len(),
        w.state.slots[idx].ref_count > 0,
    ensures
        forall|u: int|
            0 <= u < w.agents.len() ==> !has_role(Role::Owner, #[trigger] w.agents[u], idx),
        count(w.agents, Role::Owner, idx) == 0,
        count(w.agents, Role::Builder, idx) == 0,
        !w.state.free.contains(idx as u32),
{
    assert(w.slot_ok(idx));
    lemma_count_nonnegative(w.agents, Role::Owner, idx);
    lemma_count_nonnegative(w.agents, Role::Builder, idx);
    lemma_count_subset(w.agents, idx);
    lemma_uncounted(w.agents, Role::Owner, idx);
}

/// Writing the value.
#[verifier::rlimit(50)]
proof fn lemma_data_write<V>(w: World<V>, t: int, weak: bool, reply: Option<V>)
    requires
        w.inv(),
        w.can_step(t),
        w.agents[t] is DataWrite,
    ensures
        w.step(t, weak, reply).inv(),
{
    let n = w.step(t, weak, reply);
    let idx = w.agents[t]->DataWrite_idx as int;
    assert(w.agent_ok(t));
    lemma_sole_owner(w, t, idx);
    lemma_counts_update(w.agents, t, n.agents[t]);
    lemma_occupied_update(w.state.slots, idx, n.state.slots[idx]);
    assert(w.slot_ok(idx));
    lemma_num(w, n);
    lemma_one_slot(w, n, t, idx);
}

/// Setting the reference count.
#[verifier::rlimit(50)]
proof fn lemma_ref_store<V>(w: World<V>, t: int, weak: bool, reply: Option<V>)
    requires
        w.inv(),
        w.can_step(t),
        w.agents[t] is RefStore,
    ensures
        w.step(t, weak, reply).inv(),
{
    let n = w.step(t, weak, reply);
    let idx = w.agents[t]->RefStore_idx as int;
    assert(w.agent_ok(t));
    lemma_sole_owner(w, t, idx);
    lemma_counts_update(w.agents, t, n.agents[t]);
    lemma_occupied_update(w.state.slots, idx, n.state.slots[idx]);
    assert(w.slot_ok(idx));
    lemma_num(w, n);
    lemma_one_slot(w, n, t, idx);
}

/// Setting the version.
#[verifier::rlimit(50)]
proof fn lemma_version_store<V>(w: World<V>, t: int, weak: bool, reply: Option<V>)
    requires
        w.inv(),
        w.can_step(t),
        w.agents[t] is VersionStore,
    ensures
        w.step(t, weak, reply).inv(),
{
    let n = w.step(t, weak, reply);
    let idx = w.agents[t]->VersionStore_idx as int;
    assert(w.agent_ok(t));
    assert(w.slot_ok(idx));
    lemma_counted(w.agents, t, Role::Holder, idx);
    lemma_counted(w.agents, t, Role::Publisher, idx);
    lemma_no_owner(w, idx);
    lemma_counts_update(w.agents, t, n.agents[t]);
    lemma_occupied_update(w.state.slots, idx, n.state.slots[idx]);
    assert forall|u: int| 0 <= u < w.agents.len() && u != t implies !has_role(
        Role::Publisher,
        #[trigger] w.agents[u],
        idx,
    ) by {}
    assert(n.agents[t] is NumAdd);
    assert(occupied(n.state.slots[idx].version) && !occupied(w.state.slots[idx].version));
    assert(count(n.agents, Role::Holder, idx) == count(w.agents, Role::Holder, idx) - 1);
    assert(count(n.agents, Role::Publisher, idx) == 0);
    assert(count(n.agents, Role::Owner, idx) == 0);
    assert(count(n.agents, Role::Adder, 0) == count(w.agents, Role::Adder, 0) + 1);
    assert(count(n.agents, Role::Subtractor, 0) == count(w.agents, Role::Subtractor, 0));
    assert(n.published(idx));
    assert(n.slot_ok(idx));
    lemma_num(w, n);
    lemma_one_slot(w, n, t, idx);
}

/// Linking a slot to the head of the free list.
#[verifier::rlimit(50)]
proof fn lemma_free_link<V>(w: World<V>, t: int, weak: bool, reply: Option<V>)
    requires
        w.inv(),
        w.can_step(t),
        w.agents[t] is FreeLink,
    ensures
        w.step(t, weak, reply).inv(),
{
    let n = w.step(t, weak, reply);
    let idx = w.agents[t]->FreeLink_idx as int;
    assert(w.agent_ok(t));
    lemma_sole_owner(w, t, idx);
    lemma_counts_update(w.agents, t, n.agents[t]);
    lemma_occupied_update(w.state.slots, idx, n.state.slots[idx]);
    assert(w.slot_ok(idx));
    lemma_num(w, n);
    lemma_one_slot(w, n, t, idx);
}

/// Dropping the value.
#[verifier::rlimit(50)]
proof fn lemma_value_drop<V>(w: World<V>, t: int, weak: bool, reply: Option<V>)
    requires
        w.inv(),
        w.can_step(t),
        w.agents[t] is ValueDrop,
    ensures
        w.step(t, weak, reply).inv(),
{
    let n = w.step(t, weak, reply);
    let idx = w.agents[t]->ValueDrop_idx as int;
    assert(w.agent_ok(t));
    lemma_sole_owner(w, t, idx);
    lemma_counts_update(w.agents, t, n.agents[t]);
    lemma_occupied_update(w.state.slots, idx, n.state.slots[idx]);
    assert(w.slot_ok(idx));
    lemma_num(w, n);
    lemma_one_slot(w, n, t, idx);
}

/// Taking the key out.
#[verifier::rlimit(50)]
proof fn lemma_remove_cas<V>(w: World<V>, t: int, weak: bool, reply: Option<V>)
    requires
        w.inv(),
        w.can_step(t),
        w.agents[t] is RemoveCas,
        !is_quiet(w, t, weak),
    ensures
        w.step(t, weak, reply).inv(),
{
    let n = w.step(t, weak, reply);
    let idx = w.agents[t]->RemoveCas_idx as int;
    assert(w.agent_ok(t));
    assert(w.slot_ok(idx));
    lemma_count_nonnegative(w.agents, Role::Holder, idx);
    lemma_count_nonnegative(w.agents, Role::Publisher, idx);
    lemma_no_owner(w, idx);
    lemma_uncounted(w.agents, Role::Publisher, idx);
    lemma_counts_update(w.agents, t, n.agents[t]);
    lemma_occupied_update(w.state.slots, idx, n.state.slots[idx]);
    assert(n.agents[t] == (Agent::RefDrop { idx: idx as u32, after: After::Remove }));
    assert(occupied(w.state.slots[idx].version) && !occupied(n.state.slots[idx].version));
    assert(stored_version(n.state.slots[idx].version) == w.state.slots[idx].version);
    assert(count(n.agents, Role::Holder, idx) == count(w.agents, Role::Holder, idx) + 1);
    assert(count(n.agents, Role::Owner, idx) == 0);
    assert(count(n.agents, Role::Builder, idx) == 0);
    assert(count(n.agents, Role::Publisher, idx) == 0);
    assert(n.published(idx));
    assert(n.slot_ok(idx));
    assert(n.agent_ok(t));
    lemma_num(w, n);
    lemma_one_slot(w, n, t, idx);
}

/// Giving a reference back.
#[verifier::rlimit(50)]
proof fn lemma_ref_drop<V>(w: World<V>, t: int, weak: bool, reply: Option<V>)
    requires
        w.inv(),
        w.can_step(t),
        w.agents[t] is RefDrop,
    ensures
        w.step(t, weak, reply).inv(),
{
    let n = w.step(t, weak, reply);
    let idx = w.agents[t]->RefDrop_idx as int;
    assert(w.agent_ok(t));
    assert(w.slot_ok(idx));
    lemma_counted(w.agents, t, Role::Holder, idx);
    lemma_count_nonnegative(w.agents, Role::Holder, idx);
    lemma_count_nonnegative(w.agents, Role::Publisher, idx);
    lemma_no_owner(w, idx);
    lemma_counts_update(w.agents, t, n.agents[t]);
    lemma_occupied_update(w.state.slots, idx, n.state.slots[idx]);
    lemma_count_nonnegative(n.agents, Role::Holder, idx);
    lemma_count_subset(n.agents, idx);
    assert(count(n.agents, Role::Holder, idx) == count(w.agents, Role::Holder, idx) - 1);
    assert(count(n.agents, Role::Publisher, idx) == count(w.agents, Role::Publisher, idx));
    assert(n.state.slots[idx].ref_count == w.state.slots[idx].ref_count - 1);
    assert(n.published(idx) == w.published(idx));
    if w.state.slots[idx].ref_count == 1 {
        assert(n.agents[t] is ValueDrop);
        assert(count(n.agents, Role::Owner, idx) == 1);
    } else {
        assert(n.agents[t] == finishing(w.agents[t]->RefDrop_after));
        assert(count(n.agents, Role::Owner, idx) == 0);
    }
    assert(count(n.agents, Role::Builder, idx) == 0);
    assert(n.slot_ok(idx));
    assert(n.agent_ok(t));
    lemma_num(w, n);
    lemma_one_slot(w, n, t, idx);
}

/// Taking a reference.
#[verifier::rlimit(50)]
proof fn lemma_ref_cas<V>(w: World<V>, t: int, weak: bool, reply: Option<V>)
    requires
        w.inv(),
        w.can_step(t),
        w.agents[t] is RefCas,
        !is_quiet(w, t, weak),
    ensures
        w.step(t, weak, reply).inv(),
{
    let n = w.step(t, weak, reply);
    let idx = w.agents[t]->RefCas_idx as int;
    assert(w.agent_ok(t));
    assert(w.slot_ok(idx));
    lemma_no_owner(w, idx);
    lemma_counts_update(w.agents, t, n.agents[t]);
    lemma_occupied_update(w.state.slots, idx, n.state.slots[idx]);
    assert(n.agents[t] is RefCheck);
    assert(n.state.slots[idx].ref_count == w.state.slots[idx].ref_count + 1);
    assert(count(n.agents, Role::Holder, idx) == count(w.agents, Role::Holder, idx) + 1);
    assert(count(n.agents, Role::Owner, idx) == 0);
    assert(count(n.agents, Role::Builder, idx) == 0);
    assert(count(n.agents, Role::Publisher, idx) == count(w.agents, Role::Publisher, idx));
    assert(n.published(idx) == w.published(idx));
    assert(n.slot_ok(idx));
    lemma_num(w, n);
    lemma_one_slot(w, n, t, idx);
}

/// A reference becomes a guard.
#[verifier::rlimit(50)]
proof fn lemma_ref_check<V>(w: World<V>, t: int, weak: bool, reply: Option<V>)
    requires
        w.inv(),
        w.can_step(t),
        w.agents[t] is RefCheck,
        !is_quiet(w, t, weak),
    ensures
        w.step(t, weak, reply).inv(),
{
    let n = w.step(t, weak, reply);
    let idx = w.agents[t]->RefCheck_idx as int;
    assert(w.agent_ok(t));
    assert(w.slot_ok(idx));
    lemma_counted(w.agents, t, Role::Holder, idx);
    lemma_count_nonnegative(w.agents, Role::Publisher, idx);
    lemma_no_owner(w, idx);
    lemma_counts_update(w.agents, t, n.agents[t]);
    assert(n.agents[t] is Guarding);
    assert(n.state == w.state);
    assert(n.state.slots =~= w.state.slots.update(idx, w.state.slots[idx]));
    assert(count(n.agents, Role::Holder, idx) == count(w.agents, Role::Holder, idx) - 1);
    assert(count(n.agents, Role::Publisher, idx) == 0);
    assert(count(n.agents, Role::Owner, idx) == 0);
    assert(n.published(idx));
    assert(n.slot_ok(idx));
    lemma_num(w, n);
    lemma_one_slot(w, n, t, idx);
}

/// Cloning a guard.
#[verifier::rlimit(50)]
proof fn lemma_clone_add<V>(w: World<V>, t: int, weak: bool, reply: Option<V>)
    requires
        w.inv(),
        w.can_step(t),
        w.agents[t] is CloneAdd,
    ensures
        w.step(t, weak, reply).inv(),
{
    let n = w.step(t, weak, reply);
    let idx = w.agents[t]->CloneAdd_idx as int;
    assert(w.agent_ok(t));
    assert(w.slot_ok(idx));
    lemma_counted(w.agents, t, Role::Cloner, idx);
    lemma_count_nonnegative(w.agents, Role::Holder, idx);
    lemma_no_owner(w, idx);
    lemma_counts_update(w.agents, t, n.agents[t]);
    lemma_occupied_update(w.state.slots, idx, n.state.slots[idx]);
    assert(n.agents[t] is Cloned || n.agents[t] is Overflowed);
    assert(n.state.slots[idx].ref_count == w.state.slots[idx].ref_count + 1);
    assert(count(n.agents, Role::Holder, idx) == count(w.agents, Role::Holder, idx));
    assert(count(n.agents, Role::Owner, idx) == 0);
    assert(count(n.agents, Role::Builder, idx) == 0);
    assert(count(n.agents, Role::Publisher, idx) == count(w.agents, Role::Publisher, idx));
    assert(n.published(idx) == w.published(idx));
    assert(n.slot_ok(idx));
    lemma_num(w, n);
    lemma_one_slot(w, n, t, idx);
}

/// Taking the head off the free list: an exchange that succeeds takes the first slot and leaves the
/// rest, whatever was taken and put back since the head was read.
#[verifier::rlimit(50)]
pub proof fn lemma_pop_cas<V>(w: World<V>, t: int, weak: bool, reply: Option<V>)
    requires
        w.inv(),
        w.can_step(t),
        w.tag_is_fresh(t),
        w.agents[t] is PopCas,
        !is_quiet(w, t, weak),
    ensures
        w.step(t, weak, reply).inv(),
        w.step(t, weak, reply).state == w.state.popped(),
        w.state.free.len() > 0,
        w.step(t, weak, reply).agents[t] == (Agent::VersionLoad { idx: w.state.free[0] }),
{
    let n = w.step(t, weak, reply);
    let head = w.agents[t]->PopCas_head;
    let idx = head_index(head);
    assert(w.agent_ok(t));
    assert(w.seen[t] == w.ops);
    lemma_head_reachable(w);
    lemma_popped(w.state);
    assert(n.state == w.state.popped());
    assert(w.state.free.contains(w.state.free[0]));
    lemma_counts_update(w.agents, t, n.agents[t]);
    assert forall|i: int| 0 <= i < n.state.slots.len() implies #[trigger] n.slot_ok(i) by {
        assert(w.slot_ok(i));
        assert(n.state.free.contains(i as u32) == (w.state.free.contains(i as u32) && i as u32
            != idx));
    }
    assert forall|u: int| 0 <= u < n.agents.len() implies #[trigger] n.agent_ok(u) by {
        assert(w.agent_ok(u));
        if u == t {
            assert(w.slot_ok(idx as int));
        }
    }
    lemma_num(w, n);
    lemma_chunks(w, n);
}

/// Putting a slot in front of the free list.
#[verifier::rlimit(50)]
pub proof fn lemma_free_cas<V>(w: World<V>, t: int, weak: bool, reply: Option<V>)
    requires
        w.inv(),
        w.can_step(t),
        w.agents[t] is FreeCas,
        !is_quiet(w, t, weak),
    ensures
        w.step(t, weak, reply).inv(),
        w.step(t, weak, reply).state == w.state.pushed(w.agents[t]->FreeCas_idx),
{
    let n = w.step(t, weak, reply);
    let idx = w.agents[t]->FreeCas_idx;
    assert(w.agent_ok(t));
    lemma_sole_owner(w, t, idx as int);
    lemma_pushed(w.state, idx);
    assert(n.state.slots =~= w.state.pushed(idx).slots);
    assert(n.state == w.state.pushed(idx));
    lemma_counts_update(w.agents, t, n.agents[t]);
    assert forall|i: int| 0 <= i < n.state.slots.len() implies #[trigger] n.slot_ok(i) by {
        assert(w.slot_ok(i));
        assert(n.state.free.contains(i as u32) == (w.state.free.contains(i as u32) || i as u32
            == idx));
        assert(n.published(i) == w.published(i));
    }
    assert forall|u: int| 0 <= u < n.agents.len() implies #[trigger] n.agent_ok(u) by {
        assert(w.agent_ok(u));
    }
    lemma_num(w, n);
    lemma_chunks(w, n);
}

/// Taking a fresh index.
#[verifier::rlimit(50)]
proof fn lemma_grow_len<V>(w: World<V>, t: int, weak: bool, reply: Option<V>)
    requires
        w.inv(),
        w.can_step(t),
        w.agents[t] is GrowLen,
    ensures
        w.step(t, weak, reply).inv(),
{
    let n = w.step(t, weak, reply);
    let len = w.state.slots.len() as int;
    lemma_counts_update(w.agents, t, n.agents[t]);
    assert forall|role: Role| !(role is Adder || role is Subtractor) implies #[trigger] count(
        w.agents,
        role,
        len,
    ) == 0 by {
        assert forall|u: int| 0 <= u < w.agents.len() implies !has_role(
            role,
            #[trigger] w.agents[u],
            len,
        ) by {
            assert(w.agent_ok(u));
        }
        lemma_count_none(w.agents, role, len);
    }
    assert(!w.state.free.contains(len as u32)) by {
        if w.state.free.contains(len as u32) {
            let j = choose|j: int|
                0 <= j < w.state.free.len() && w.state.free[j] == len as u32;
            assert(w.state.free[j] < w.state.slots.len());
        }
    }
    lemma_occupied_push(w.state.slots, zeroed_slot());
    assert forall|i: int|
        0 <= i < n.state.free.len() implies (#[trigger] n.state.free[i]) < n.state.slots.len()
        && n.state.slots[n.state.free[i] as int].next_free == link(n.state.free, i + 1) by {
        assert(w.state.free[i] < w.state.slots.len());
    }
    assert forall|i: int| 0 <= i < n.state.slots.len() implies #[trigger] n.slot_ok(i) by {
        if i < len {
            assert(w.slot_ok(i));
            assert(n.published(i) == w.published(i));
        } else {
            assert(count(n.agents, Role::Holder, i) == 0);
            assert(count(n.agents, Role::Owner, i) == 1);
            assert(count(n.agents, Role::Publisher, i) == 0);
            assert(count(n.agents, Role::Builder, i) == 1);
        }
    }
    assert forall|u: int| 0 <= u < n.agents.len() implies #[trigger] n.agent_ok(u) by {
        assert(w.agent_ok(u));
    }
    lemma_num(w, n);
    lemma_chunks(w, n);
}

/// Finding or making the chunk of a fresh index.
#[verifier::rlimit(50)]
proof fn lemma_chunk<V>(w: World<V>, t: int, weak: bool, reply: Option<V>)
    requires
        w.inv(),
        w.can_step(t),
        w.agents[t] is ChunkLoad || w.agents[t] is ChunkInstall,
        !is_quiet(w, t, weak),
    ensures
        w.step(t, weak, reply).inv(),
{
    let n = w.step(t, weak, reply);
    let idx = match w.agents[t] {
        Agent::ChunkLoad { idx } => idx,
        Agent::ChunkInstall { idx } => idx,
        _ => 0,
    };
    assert(w.agent_ok(t));
    lemma_chunk_of(idx as int);
    lemma_counts_update(w.agents, t, n.agents[t]);
    assert(n.agents[t] == (Agent::Claimed { idx, version: 0 }));
    assert(n.state.present[chunk_of(idx as int) as int]);
    assert(n.state.slots == w.state.slots && n.state.free == w.state.free);
    assert(forall|k: int| 0 <= k < CHUNKS && w.state.present[k] ==> #[trigger] n.state.present[k]);
    lemma_reachable_stays(w.state, n.state);
    assert forall|i: int| 0 <= i < n.state.slots.len() implies #[trigger] n.slot_ok(i) by {
        assert(w.slot_ok(i));
        lemma_chunk_of(i);
        assert(n.published(i) == w.published(i));
        assert(count(n.agents, Role::Owner, i) == count(w.agents, Role::Owner, i));
        assert(count(n.agents, Role::Holder, i) == count(w.agents, Role::Holder, i));
        assert(count(n.agents, Role::Publisher, i) == count(w.agents, Role::Publisher, i));
        if i != idx {
            assert(count(n.agents, Role::Builder, i) == count(w.agents, Role::Builder, i));
        }
    }
    assert forall|u: int| 0 <= u < n.agents.len() implies #[trigger] n.agent_ok(u) by {
        assert(w.agent_ok(u));
        if u != t {
            lemma_same_slots_agent(w, n, u);
        }
    }
    lemma_num(w, n);
    let c = chunk_of(idx as int) as int;
    assert forall|j: int| 0 <= j < c && !(#[trigger] w.state.present[j]) implies chunk_start(
        j as nat,
    ) < w.state.slots.len() by {
        lemma_chunk_start_monotone(j as nat, c as nat);
    }
    assert(n.state.present =~= w.state.present.update(c, true));
    lemma_chunks_update(w, n, c);
}

/// Making a reserved chunk.
#[verifier::rlimit(50)]
proof fn lemma_reserve_install<V>(w: World<V>, t: int, weak: bool, reply: Option<V>)
    requires
        w.inv(),
        w.can_step(t),
        w.agents[t] is ReserveInstall,
    ensures
        w.step(t, weak, reply).inv(),
{
    let n = w.step(t, weak, reply);
    let c = w.agents[t]->ReserveInstall_chunk as int;
    assert(w.agent_ok(t));
    lemma_counts_update(w.agents, t, n.agents[t]);
    assert(forall|role: Role, i: int| #[trigger]
        count(n.agents, role, i) == count(w.agents, role, i));
    assert(n.state.slots == w.state.slots && n.state.free == w.state.free);
    assert(n.state.present == w.state.present.update(c, true));
    lemma_reachable_stays(w.state, n.state);
    assert forall|i: int| 0 <= i < n.state.slots.len() implies #[trigger] n.slot_ok(i) by {
        assert(w.slot_ok(i));
        lemma_chunk_of(i);
        assert(n.published(i) == w.published(i));
    }
    assert forall|u: int| 0 <= u < n.agents.len() implies #[trigger] n.agent_ok(u) by {
        assert(w.agent_ok(u));
        if u != t {
            lemma_same_slots_agent(w, n, u);
        }
    }
    lemma_num(w, n);
    lemma_chunks_update(w, n, c);
}

/// An agent is not disturbed by more chunks.
#[verifier::rlimit(50)]
proof fn lemma_same_slots_agent<V>(w: World<V>, n: World<V>, u: int)
    requires
        w.agent_ok(u),
        0 <= u < w.agents.len(),
        n.agents.len() == w.agents.len(),
        n.agents[u] == w.agents[u],
        n.state.slots == w.state.slots,
        w.state.present.len() == CHUNKS,
        forall|k: int| 0 <= k < CHUNKS && w.state.present[k] ==> #[trigger] n.state.present[k],
        n.state.free_head == w.state.free_head,
        n.seen == w.seen,
        n.ops == w.ops,
        n.payloads[u] == w.payloads[u],
        forall|idx: u32| w.state.reachable(idx) ==> #[trigger] n.state.reachable(idx),
        forall|i: int| #[trigger]
            count(n.agents, Role::Publisher, i) == count(w.agents, Role::Publisher, i),
    ensures
        n.agent_ok(u),
{
}

/// What could be reached can be reached with more chunks.
proof fn lemma_reachable_stays<V>(s: State<V>, n: State<V>)
    requires
        n.slots.len() == s.slots.len() <= u32::MAX,
        s.present.len() == CHUNKS,
        n.present.len() == CHUNKS,
        forall|k: int| 0 <= k < CHUNKS && s.present[k] ==> #[trigger] n.present[k],
    ensures
        forall|idx: u32| s.reachable(idx) ==> #[trigger] n.reachable(idx),
{
    assert forall|idx: u32| s.reachable(idx) implies #[trigger] n.reachable(idx) by {
        lemma_chunk_of(idx as int);
    }
}

/// Counting an element.
#[verifier::rlimit(50)]
proof fn lemma_counting<V>(w: World<V>, t: int, weak: bool, reply: Option<V>)
    requires
        w.inv(),
        w.can_step(t),
        w.agents[t] is NumAdd || w.agents[t] is NumSub,
    ensures
        w.step(t, weak, reply).inv(),
{
    let n = w.step(t, weak, reply);
    lemma_counts_update(w.agents, t, n.agents[t]);
    assert forall|i: int| 0 <= i < n.state.slots.len() implies #[trigger] n.slot_ok(i) by {
        assert(w.slot_ok(i));
        assert(n.published(i) == w.published(i));
    }
    assert forall|u: int| 0 <= u < n.agents.len() implies #[trigger] n.agent_ok(u) by {
        assert(w.agent_ok(u));
    }
    lemma_num(w, n);
    lemma_chunks(w, n);
}

/// Every step of every agent keeps the invariant, as long as no more changes of the free list than
/// there are tags come between reading its head and exchanging it.
#[verifier::rlimit(50)]
pub proof fn lemma_step<V>(w: World<V>, t: int, weak: bool, reply: Option<V>)
    requires
        w.inv(),
        w.can_step(t),
        w.tag_is_fresh(t),
    ensures
        w.step(t, weak, reply).inv(),
{
    if is_quiet(w, t, weak) {
        lemma_quiet_step(w, t, weak, reply);
    } else {
        match w.agents[t] {
            Agent::PopCas { .. } => lemma_pop_cas(w, t, weak, reply),
            Agent::GrowLen => lemma_grow_len(w, t, weak, reply),
            Agent::ChunkLoad { .. } => lemma_chunk(w, t, weak, reply),
            Agent::ChunkInstall { .. } => lemma_chunk(w, t, weak, reply),
            Agent::DataWrite { .. } => lemma_data_write(w, t, weak, reply),
            Agent::RefStore { .. } => lemma_ref_store(w, t, weak, reply),
            Agent::VersionStore { .. } => lemma_version_store(w, t, weak, reply),
            Agent::NumAdd { .. } => lemma_counting(w, t, weak, reply),
            Agent::FreeLink { .. } => lemma_free_link(w, t, weak, reply),
            Agent::FreeCas { .. } => lemma_free_cas(w, t, weak, reply),
            Agent::RemoveCas { .. } => lemma_remove_cas(w, t, weak, reply),
            Agent::RefCas { .. } => lemma_ref_cas(w, t, weak, reply),
            Agent::RefCheck { .. } => lemma_ref_check(w, t, weak, reply),
            Agent::RefDrop { .. } => lemma_ref_drop(w, t, weak, reply),
            Agent::ValueDrop { .. } => lemma_value_drop(w, t, weak, reply),
            Agent::CloneAdd { .. } => lemma_clone_add(w, t, weak, reply),
            Agent::NumSub => lemma_counting(w, t, weak, reply),
            Agent::ReserveInstall { .. } => lemma_reserve_install(w, t, weak, reply),
            _ => {},
        }
    }
}

/// An operation may begin at any moment.
#[verifier::rlimit(50)]
pub proof fn lemma_start<V>(w: World<V>, agent: Agent)
    requires
        w.inv(),
        World::<V>::may_start(agent),
    ensures
        w.started(agent).inv(),
{
    let n = w.started(agent);
    lemma_counts_push(w.agents, agent);
    assert forall|i: int| 0 <= i < n.state.slots.len() implies #[trigger] n.slot_ok(i) by {
        assert(w.slot_ok(i));
        assert(n.published(i) == w.published(i));
    }
    assert forall|u: int| 0 <= u < n.agents.len() implies #[trigger] n.agent_ok(u) by {
        if u < w.agents.len() {
            assert(w.agent_ok(u));
        }
    }
    lemma_num(w, n);
    lemma_chunks(w, n);
}

/// The holder of a guard may begin to give it back at any moment, unless it is being cloned.
#[verifier::rlimit(50)]
pub proof fn lemma_release<V>(w: World<V>, idx: u32)
    requires
        w.inv(),
        idx < w.state.slots.len(),
        w.may_release(idx),
    ensures
        w.releasing(idx).inv(),
{
    let n = w.releasing(idx);
    let agent = Agent::RefDrop { idx, after: After::Release };
    lemma_counts_push(w.agents, agent);
    assert(w.slot_ok(idx as int));
    lemma_count_nonnegative(w.agents, Role::Holder, idx as int);
    lemma_count_nonnegative(w.agents, Role::Publisher, idx as int);
    lemma_no_owner(w, idx as int);
    assert forall|i: int| 0 <= i < n.state.slots.len() implies #[trigger] n.slot_ok(i) by {
        assert(w.slot_ok(i));
        assert(n.published(i) == w.published(i));
    }
    assert forall|u: int| 0 <= u < n.agents.len() implies #[trigger] n.agent_ok(u) by {
        if u < w.agents.len() {
            assert(w.agent_ok(u));
        }
    }
    lemma_num(w, n);
    lemma_chunks(w, n);
}

/// The holder of a guard may begin to clone it at any moment.
#[verifier::rlimit(50)]
pub proof fn lemma_clone<V>(w: World<V>, idx: u32)
    requires
        w.inv(),
        idx < w.state.slots.len(),
        w.guards[idx as int] > 0,
    ensures
        w.cloning(idx).inv(),
{
    let n = w.cloning(idx);
    let agent = Agent::CloneAdd { idx };
    lemma_counts_push(w.agents, agent);
    assert(w.slot_ok(idx as int));
    lemma_count_nonnegative(w.agents, Role::Holder, idx as int);
    lemma_no_owner(w, idx as int);
    lemma_unowned_reachable(w, idx as int);
    assert forall|i: int| 0 <= i < n.state.slots.len() implies #[trigger] n.slot_ok(i) by {
        assert(w.slot_ok(i));
        assert(n.published(i) == w.published(i));
    }
    assert forall|u: int| 0 <= u < n.agents.len() implies #[trigger] n.agent_ok(u) by {
        if u < w.agents.len() {
            assert(w.agent_ok(u));
        }
    }
    lemma_num(w, n);
    lemma_chunks(w, n);
}

/// From the state between two operations any number of operations may begin.
#[verifier::rlimit(50)]
pub proof fn lemma_rest<V>(s: State<V>)
    requires
        s.settled(),
    ensures
        World::at_rest(s).inv(),
{
    let w = World::at_rest(s);
    assert forall|i: int| 0 <= i < s.slots.len() implies #[trigger] w.slot_ok(i) by {
        assert(s.slot_ok(i));
        assert(s.present[chunk_of(i) as int]);
        let key = KeyView { idx: i as u32, version: stored_version(s.slots[i].version) };
        if s.slots[i].ref_count > 0 {
            assert(s.stores(key));
        }
    }
    reveal(World::num_ok);
    assert(w.chunks_ok()) by {
        reveal(World::chunks_ok);
        reveal(prefix_closed);
    }
}

/// Once all operations are done, the state is one between two operations: every slot is free or
/// referenced by the map or a guard, and the counter of elements is right.
#[verifier::rlimit(50)]
pub proof fn lemma_quiescent<V>(w: World<V>)
    requires
        w.inv(),
        w.quiescent(),
    ensures
        w.state.settled(),
        forall|i: int|
            0 <= i < w.guards.len() ==> #[trigger] w.guards[i] == w.state.guards(
                KeyView { idx: i as u32, version: stored_version(w.state.slots[i].version) },
            ),
{
    assert forall|role: Role, i: int| #[trigger] count(w.agents, role, i) == 0 by {
        assert forall|t: int| 0 <= t < w.agents.len() implies !has_role(
            role,
            #[trigger] w.agents[t],
            i,
        ) by {
            assert(w.agents[t].wants() is Stop);
        }
        lemma_count_none(w.agents, role, i);
    }
    assert forall|i: int| 0 <= i < w.state.slots.len() implies #[trigger] w.state.slot_ok(i) by {
        assert(w.slot_ok(i));
    }
    assert forall|i: int| 0 <= i < w.state.slots.len() implies w.state.present[#[trigger] chunk_of(
        i,
    ) as int] by {
        assert(w.slot_ok(i));
    }
    assert(prefix_closed(w.state.present)) by {
        reveal(prefix_closed);
        reveal(World::chunks_ok);
        assert forall|j: int, k: int|
            0 <= j < k < w.state.present.len() && w.state.present[k] implies w.state.present[j] by {
            if !w.state.present[j] {
                let i = chunk_start(j as nat) as int;
                lemma_chunk_start_monotone(j as nat, (j + 1) as nat);
                lemma_chunk_of_is(i, j as nat);
                assert(w.state.present[chunk_of(i) as int]);
            }
        }
    }
    lemma_occupied_bound(w.state.slots);
    reveal(World::num_ok);
    assert forall|i: int| 0 <= i < w.guards.len() implies #[trigger] w.guards[i] == w.state.guards(
        KeyView { idx: i as u32, version: stored_version(w.state.slots[i].version) },
    ) by {
        assert(w.slot_ok(i));
    }
}

} // verus!
