//! What the agents do to the contents of the map, whatever the order of their steps.
#[allow(unused_imports)]
use crate::chunks::lemma_chunk_addressable;
#[allow(unused_imports)]
use crate::count::{
    count, has_role, lemma_count_none, lemma_count_nonnegative, lemma_counted, lemma_uncounted,
    Role,
};
#[allow(unused_imports)]
use crate::head::{lemma_next_tag, lemma_packed_head};
#[allow(unused_imports)]
use crate::location::lemma_chunk_start_monotone;
#[allow(unused_imports)]
use crate::protocol::{looking, After, Agent, Lookup};
#[allow(unused_imports)]
use crate::slot::{occupied, MAX_REFCOUNT};
#[allow(unused_imports)]
use crate::state::{stored_version, State};
#[allow(unused_imports)]
use crate::steps::{lemma_no_owner, lemma_sole_owner};
#[allow(unused_imports)]
use crate::util::{odd_version_of, KeyView};
#[allow(unused_imports)]
use crate::world::World;
#[allow(unused_imports)]
use vstd::prelude::*;

verus! {

broadcast use {lemma_packed_head, lemma_next_tag};

/// Every action that an agent asks for finds what it works on: the slot exists, its chunk is there,
/// and a chunk that is to be made can be addressed.
#[verifier::rlimit(50)]
pub proof fn lemma_action_allowed<V>(w: World<V>, t: int)
    requires
        w.inv(),
        w.can_step(t),
    ensures
        w.state.allows(w.agents[t].wants()),
{
    assert(w.agent_ok(t));
    match w.agents[t] {
        Agent::ChunkLoad { idx } => {
            lemma_chunk_addressable(idx as int);
        },
        Agent::ChunkInstall { idx } => {
            lemma_chunk_addressable(idx as int);
        },
        Agent::Await { lookup: _, idx, version: _ } => {
            lemma_chunk_addressable(idx as int);
        },
        Agent::ReserveScan { next, len: _, in_use: _, additional: _ } => {
            lemma_chunk_addressable(next as int);
        },
        Agent::ReserveInstall { chunk, last } => {
            lemma_chunk_start_monotone((chunk + 1) as nat, (last + 1) as nat);
        },
        _ => {},
    }
}

/// Whoever writes, drops or links a slot is alone with it: no other agent owns it or refers to it,
/// no guard is held, it is not in the free list and no key of the map leads to it.
#[verifier::rlimit(50)]
pub proof fn lemma_exclusive<V>(w: World<V>, t: int, idx: u32)
    requires
        w.inv(),
        0 <= t < w.agents.len(),
        has_role(Role::Owner, w.agents[t], idx as int),
    ensures
        idx < w.state.slots.len(),
        forall|u: int|
            0 <= u < w.agents.len() && u != t ==> !has_role(
                Role::Owner,
                #[trigger] w.agents[u],
                idx as int,
            ) && !has_role(Role::Holder, w.agents[u], idx as int),
        w.guards[idx as int] == 0,
        !w.state.free.contains(idx),
        forall|version: u32| !#[trigger] w.state.contains(KeyView { idx, version }),
{
    assert(w.agent_ok(t));
    lemma_sole_owner(w, t, idx as int);
    lemma_uncounted(w.agents, Role::Holder, idx as int);
}

/// The value that a guard refers to is the one that was published under its key, and no step of
/// any agent changes it or the key.
#[verifier::rlimit(50)]
pub proof fn lemma_guard_keeps_value<V>(
    w: World<V>,
    t: int,
    weak: bool,
    reply: Option<V>,
    idx: u32,
)
    requires
        w.inv(),
        w.can_step(t),
        idx < w.state.slots.len(),
        w.guards[idx as int] > 0,
    ensures
        w.published(idx as int),
        w.step(t, weak, reply).guards[idx as int] > 0,
        w.step(t, weak, reply).state.slots[idx as int].data == w.state.slots[idx as int].data,
        stored_version(w.step(t, weak, reply).state.slots[idx as int].version) == stored_version(
            w.state.slots[idx as int].version,
        ),
{
    let i = idx as int;
    assert(w.slot_ok(i));
    assert(w.agent_ok(t));
    lemma_count_nonnegative(w.agents, Role::Holder, i);
    lemma_no_owner(w, i);
    assert(!has_role(Role::Owner, w.agents[t], i));
    if has_role(Role::Publisher, w.agents[t], i) {
        lemma_counted(w.agents, t, Role::Publisher, i);
    }
    lemma_untouched(w, t, weak, reply, i);
}

/// An agent that neither owns a slot nor publishes it keeps the value and the key under which it was
/// stored.
#[verifier::rlimit(50)]
proof fn lemma_untouched<V>(w: World<V>, t: int, weak: bool, reply: Option<V>, i: int)
    requires
        0 <= t < w.agents.len(),
        0 <= i < w.state.slots.len() == w.guards.len(),
        w.state.slots.len() <= u32::MAX,
        !has_role(Role::Owner, w.agents[t], i),
        !has_role(Role::Publisher, w.agents[t], i),
        w.agent_ok(t),
    ensures
        i < w.step(t, weak, reply).state.slots.len(),
        w.step(t, weak, reply).guards[i] >= w.guards[i],
        w.step(t, weak, reply).state.slots[i].data == w.state.slots[i].data,
        stored_version(w.step(t, weak, reply).state.slots[i].version) == stored_version(
            w.state.slots[i].version,
        ),
{
}

/// A value that is in a slot stays there until it is dropped by the one agent whose turn it is, and
/// is written only where there was none: no value is overwritten, and none is dropped twice.
#[verifier::rlimit(50)]
pub proof fn lemma_values_step<V>(w: World<V>, t: int, weak: bool, reply: Option<V>, i: int)
    requires
        w.inv(),
        w.can_step(t),
        0 <= i < w.state.slots.len(),
    ensures
        ({
            let before = w.state.slots[i].data;
            let after = w.step(t, weak, reply).state.slots[i].data;
            match w.agents[t] {
                Agent::DataWrite { idx, version: _ } if idx == i => before is None && after is Some
                    && after == w.payloads[t],
                Agent::ValueDrop { idx, after: _ } if idx == i => before is Some && after is None,
                _ => after == before,
            }
        }),
{
    assert(w.agent_ok(t));
}

/// What a step of agent `t` does to the contents of the map. An insertion takes effect when it sets
/// the version, a removal when it exchanges it, and no other step changes the contents.
pub open spec fn effect<V>(w: World<V>, t: int) -> Map<KeyView, V> {
    match w.agents[t] {
        Agent::VersionStore { idx, version } => w.state.live().insert(
            KeyView { idx, version: odd_version_of(version) },
            w.state.slots[idx as int].data->0,
        ),
        Agent::RemoveCas { idx, version } => w.state.live().remove(KeyView { idx, version }),
        _ => w.state.live(),
    }
}

/// The contents of the map depend on the versions and on the values of the occupied slots alone.
#[verifier::rlimit(50)]
proof fn lemma_same_live<V>(s: State<V>, n: State<V>)
    requires
        s.slots.len() <= n.slots.len(),
        forall|i: int|
            0 <= i < s.slots.len() ==> (#[trigger] n.slots[i]).version == s.slots[i].version,
        forall|i: int|
            0 <= i < s.slots.len() && occupied(s.slots[i].version) ==> (#[trigger] n.slots[i]).data
                == s.slots[i].data,
        forall|i: int|
            s.slots.len() <= i < n.slots.len() ==> !occupied((#[trigger] n.slots[i]).version),
    ensures
        n.live() == s.live(),
{
    assert(n.live() =~= s.live());
}

/// The contents of the map change at one step of each insertion and of each removal that finds its
/// key, as a whole, and at no other step. An insertion finds its key unused.
#[verifier::rlimit(50)]
pub proof fn lemma_live_step<V>(w: World<V>, t: int, weak: bool, reply: Option<V>)
    requires
        w.inv(),
        w.can_step(t),
    ensures
        w.step(t, weak, reply).state.live() == effect(w, t),
        w.agents[t] matches Agent::VersionStore { idx, version } ==> !w.state.live().contains_key(
            KeyView { idx, version: odd_version_of(version) },
        ),
{
    assert(w.agent_ok(t));
    match w.agents[t] {
        Agent::VersionStore { idx, version: _ } => {
            assert(w.slot_ok(idx as int));
        },
        Agent::DataWrite { idx, version: _ } => {
            lemma_sole_owner(w, t, idx as int);
        },
        Agent::ValueDrop { idx, after: _ } => {
            lemma_sole_owner(w, t, idx as int);
        },
        _ => {},
    }
    lemma_effect(w, t, weak, reply);
}

/// The effect of a step on the contents of the map follows from what holds of the agent and of its
/// slot.
#[verifier::rlimit(50)]
proof fn lemma_effect<V>(w: World<V>, t: int, weak: bool, reply: Option<V>)
    requires
        0 <= t < w.agents.len(),
        w.agent_ok(t),
        w.agents[t] matches Agent::DataWrite { idx, version: _ } ==> !occupied(
            w.state.slots[idx as int].version,
        ),
        w.agents[t] matches Agent::ValueDrop { idx, after: _ } ==> !occupied(
            w.state.slots[idx as int].version,
        ),
    ensures
        w.step(t, weak, reply).state.live() == effect(w, t),
{
    let n = w.step(t, weak, reply);
    match w.agents[t] {
        Agent::VersionStore { idx, version } => {
            let key = KeyView { idx, version: odd_version_of(version) };
            assert(n.state.live() =~= w.state.live().insert(key, w.state.slots[idx as int].data->0));
        },
        Agent::RemoveCas { idx, version } => {
            let key = KeyView { idx, version };
            assert(n.state.live() =~= w.state.live().remove(key));
        },
        _ => {
            lemma_same_live(w.state, n.state);
        },
    }
}

/// The key that an agent looks for, if it does.
pub open spec fn sought(agent: Agent) -> Option<KeyView> {
    match agent {
        Agent::Locate { lookup, idx, version } if lookup != Lookup::Scan => Some(
            KeyView { idx, version },
        ),
        Agent::Await { lookup, idx, version } if lookup != Lookup::Scan => Some(
            KeyView { idx, version },
        ),
        Agent::RemoveLoad { idx, version } => Some(KeyView { idx, version }),
        Agent::RemoveCas { idx, version } => Some(KeyView { idx, version }),
        Agent::RefLoad { idx, version } => Some(KeyView { idx, version }),
        Agent::RefCas { idx, version, count: _ } => Some(KeyView { idx, version }),
        Agent::RefCheck { idx, version } => Some(KeyView { idx, version }),
        Agent::ContainsLoad { idx, version } => Some(KeyView { idx, version }),
        _ => None,
    }
}

/// An agent that looks for a key goes on looking for the same key until a step decides, and that
/// step decides by whether the key is in the map at that moment. It ends without a result only
/// where the slot has too many references.
#[verifier::rlimit(50)]
pub proof fn lemma_lookup_step<V>(w: World<V>, t: int, weak: bool, reply: Option<V>)
    requires
        w.inv(),
        w.can_step(t),
        sought(w.agents[t]) is Some,
    ensures
        ({
            let key = sought(w.agents[t])->0;
            let found = w.state.live().contains_key(key);
            match w.step(t, weak, reply).agents[t] {
                // The lookup found the key.
                Agent::Guarding { idx, version } => found && key == (KeyView { idx, version }),
                // It did not, and has nothing or a reference that is not a guard to give back.
                Agent::Missing => !found,
                Agent::RefDrop { idx, after: After::Lookup } => !found && key.idx == idx,
                // The removal took the key, or there was none.
                Agent::RefDrop { idx, after: After::Remove } => found && key.idx == idx
                    && w.agents[t] is RemoveCas,
                Agent::Removed { found: removed } => !removed && !found,
                // The question was answered.
                Agent::Contained { found: contained } => contained == found,
                // There were too many references.
                Agent::Overflowed => key.idx < w.state.slots.len() && w.state.slots[
                    key.idx as int].ref_count > MAX_REFCOUNT,
                // It goes on.
                next => sought(next) == Some(key),
            }
        }),
{
    assert(w.agent_ok(t));
    let key = sought(w.agents[t])->0;
    if key.idx < w.state.slots.len() {
        assert(w.slot_ok(key.idx as int));
        lemma_count_nonnegative(w.agents, Role::Holder, key.idx as int);
    }
}

/// A step never takes an agent from its decision to another one: a removal that took its key ends
/// as one that did, and a lookup that gives a reference back ends without a guard.
#[verifier::rlimit(50)]
pub proof fn lemma_decided_step<V>(w: World<V>, t: int, weak: bool, reply: Option<V>)
    requires
        w.inv(),
        w.can_step(t),
    ensures
        ({
            let next = w.step(t, weak, reply).agents[t];
            &&& has_role(Role::Subtractor, w.agents[t], 0) ==> has_role(Role::Subtractor, next, 0)
                || next == (Agent::Removed { found: true })
            &&& w.agents[t] matches Agent::NumAdd { idx, version } ==> next == (Agent::Inserted {
                idx,
                version,
            })
            &&& w.agents[t].wants() is Stop ==> next == w.agents[t]
        }),
{
}

/// A guard that a lookup gave leads to the value under the key, and keeps the map's value alive.
#[verifier::rlimit(50)]
pub proof fn lemma_guarding_step<V>(w: World<V>, t: int, weak: bool, reply: Option<V>)
    requires
        w.inv(),
        w.can_step(t),
        w.step(t, weak, reply).agents[t] is Guarding,
        !(w.agents[t] is Guarding),
    ensures
        ({
            let n = w.step(t, weak, reply);
            let key = KeyView {
                idx: n.agents[t]->Guarding_idx,
                version: n.agents[t]->Guarding_version,
            };
            &&& n.guards[key.idx as int] == w.guards[key.idx as int] + 1
            &&& w.state.live().contains_key(key)
            &&& n.state == w.state
            &&& w.log.contains_key(key)
            &&& w.state.live()[key] == w.log[key]
        }),
{
    assert(w.agent_ok(t));
    assert(w.agents[t] is RefCheck);
    assert(w.slot_ok(w.agents[t]->RefCheck_idx as int));
}

/// A reservation that ends has made all its chunks.
#[verifier::rlimit(50)]
pub proof fn lemma_reserved_step<V>(w: World<V>, t: int, weak: bool, reply: Option<V>)
    requires
        w.inv(),
        w.can_step(t),
        w.agents[t] is ReserveLoad || w.agents[t] is ReserveInstall,
        w.step(t, weak, reply).agents[t] is Reserved,
    ensures
        ({
            let last = match w.agents[t] {
                Agent::ReserveLoad { chunk: _, last } => last,
                Agent::ReserveInstall { chunk: _, last } => last,
                _ => 0,
            };
            forall|k: int| 0 <= k <= last ==> #[trigger] w.step(t, weak, reply).state.present[k]
        }),
{
    assert(w.agent_ok(t));
}

/// The slot that an agent scans, if it does and has not found it occupied yet.
pub open spec fn scanned_slot(agent: Agent) -> Option<u32> {
    match agent {
        Agent::Locate { lookup, idx, version: _ } if lookup == Lookup::Scan => Some(idx),
        Agent::Await { lookup, idx, version: _ } if lookup == Lookup::Scan => Some(idx),
        Agent::ScanLoad { idx } => Some(idx),
        _ => None,
    }
}

/// A scan goes on with the same slot until a step decides. One that finds the slot occupied goes on to look
/// up a key that is in the map at that moment. One that ends leaves out no key: the slot has none at that
/// moment, or there is no such slot and none behind it.
#[verifier::rlimit(50)]
pub proof fn lemma_scan_step<V>(w: World<V>, t: int, weak: bool, reply: Option<V>)
    requires
        w.inv(),
        w.can_step(t),
        scanned_slot(w.agents[t]) is Some,
    ensures
        ({
            let at = scanned_slot(w.agents[t])->0;
            match w.step(t, weak, reply).agents[t] {
                Agent::Locate { lookup, idx, version } => lookup == Lookup::Get && idx == at
                    && w.state.live().contains_key(KeyView { idx, version }),
                Agent::Missing => at < w.state.slots.len() && forall|version: u32|
                    !#[trigger] w.state.contains(KeyView { idx: at, version }),
                Agent::Exhausted => at >= w.state.slots.len() && forall|key: KeyView|
                    key.idx >= at ==> !#[trigger] w.state.contains(key),
                next => scanned_slot(next) == Some(at),
            }
        }),
{
    assert(w.agent_ok(t));
}

/// The free list is lock-free: an exchange of its head that does not fail for no reason fails only
/// where another agent has exchanged the head since it was read, and so has come further.
#[verifier::rlimit(50)]
pub proof fn lemma_failed_exchange<V>(w: World<V>, t: int, reply: Option<V>)
    requires
        w.inv(),
        w.can_step(t),
        w.agents[t] is PopCas || w.agents[t] is FreeCas,
        w.step(t, false, reply).ops == w.ops,
    ensures
        w.seen[t] < w.ops,
{
    assert(w.agent_ok(t));
}

/// A lookup waits for a chunk only while an insertion that took the slot is about to make it.
#[verifier::rlimit(50)]
pub proof fn lemma_wait_has_builder<V>(w: World<V>, t: int)
    requires
        w.inv(),
        0 <= t < w.agents.len(),
        w.agents[t] is Await,
        !w.state.reachable(w.agents[t]->Await_idx),
    ensures
        exists|u: int|
            0 <= u < w.agents.len() && #[trigger] has_role(
                Role::Builder,
                w.agents[u],
                w.agents[t]->Await_idx as int,
            ),
{
    let idx = w.agents[t]->Await_idx as int;
    assert(w.agent_ok(t));
    assert(w.slot_ok(idx));
    if forall|u: int|
        0 <= u < w.agents.len() ==> !#[trigger] has_role(Role::Builder, w.agents[u], idx) {
        lemma_count_none(w.agents, Role::Builder, idx);
    }
}

} // verus!
