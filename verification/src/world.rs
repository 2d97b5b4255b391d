//! Any number of agents at work on one memory, and what holds at every moment of it.
#[allow(unused_imports)]
use crate::chunks::max_len;
#[allow(unused_imports)]
use crate::count::{count, one_if, Role};
#[allow(unused_imports)]
use crate::head::{head_index, head_tag};
#[allow(unused_imports)]
use crate::location::{chunk_of, chunk_start, CHUNKS};
#[allow(unused_imports)]
use crate::protocol::{Action, After, Agent, Lookup};
#[allow(unused_imports)]
use crate::slot::{occupied, zeroed_slot, MAX_REFCOUNT};
#[allow(unused_imports)]
use crate::state::{occupied_count, stored_version, State};
#[allow(unused_imports)]
use crate::util::KeyView;
#[allow(unused_imports)]
use vstd::prelude::*;

verus! {

/// A memory and the agents at work on it.
pub struct World<V> {
    /// The memory.
    pub state: State<V>,
    /// The agents, those that are done included.
    pub agents: Seq<Agent>,
    /// The value that each agent is to write.
    pub payloads: Seq<Option<V>>,
    /// How often the free list had changed when each agent last read its head.
    pub seen: Seq<nat>,
    /// How often the free list has changed.
    pub ops: nat,
    /// How many guards into each slot are held.
    pub guards: Seq<nat>,
    /// The value that was last published under each key.
    pub log: Map<KeyView, V>,
}

impl<V> World<V> {
    /// Agent `t` performs its next action. An exchange that may fail for no reason does so where
    /// `weak` says so; a caller that is asked for a value gives `reply`.
    pub open spec fn step(self, t: int, weak: bool, reply: Option<V>) -> Self {
        let agent = self.agents[t];
        let payload = if agent is Claimed {
            reply
        } else {
            self.payloads[t]
        };
        let action = agent.wants();
        let event = self.state.event(action, weak, payload);
        let next = agent.after(event);
        World {
            state: self.state.performed(action, weak, payload),
            agents: self.agents.update(t, next),
            payloads: if agent is Claimed || agent is DataWrite {
                self.payloads.update(
                    t,
                    if agent is Claimed {
                        reply
                    } else {
                        None
                    },
                )
            } else {
                self.payloads
            },
            seen: if event is Head {
                self.seen.update(t, self.ops)
            } else {
                self.seen
            },
            ops: if (action is PopHead || action is PushHead) && event is Swapped {
                self.ops + 1
            } else {
                self.ops
            },
            guards: if action is FetchAddLen {
                self.guards.push(0)
            } else if agent is RefCheck && next is Guarding {
                self.guards.update(
                    agent->RefCheck_idx as int,
                    self.guards[agent->RefCheck_idx as int] + 1,
                )
            } else if agent is CloneAdd {
                // Beyond the cap the guard is nobody's, and is not given back.
                self.guards.update(
                    agent->CloneAdd_idx as int,
                    self.guards[agent->CloneAdd_idx as int] + 1,
                )
            } else {
                self.guards
            },
            log: match action {
                Action::StoreVersion { idx, version } => self.log.insert(
                    KeyView { idx, version },
                    self.state.slots[idx as int].data->0,
                ),
                _ => self.log,
            },
        }
    }

    /// One more agent begins.
    pub open spec fn started(self, agent: Agent) -> Self {
        World {
            agents: self.agents.push(agent),
            payloads: self.payloads.push(None),
            seen: self.seen.push(0),
            ..self
        }
    }

    /// The holder of a guard into slot `idx` begins to give it back.
    pub open spec fn releasing(self, idx: u32) -> Self {
        World {
            guards: self.guards.update(idx as int, (self.guards[idx as int] - 1) as nat),
            ..self.started(Agent::RefDrop { idx, after: After::Release })
        }
    }

    /// The holder of a guard into slot `idx` begins to clone it.
    pub open spec fn cloning(self, idx: u32) -> Self {
        self.started(Agent::CloneAdd { idx })
    }

    /// Whether a guard into slot `idx` is held that is not being cloned.
    pub open spec fn may_release(self, idx: u32) -> bool {
        self.guards[idx as int] > one_if(count(self.agents, Role::Cloner, idx as int) > 0)
    }

    /// Whether an operation begins like this.
    pub open spec fn may_start(agent: Agent) -> bool {
        match agent {
            Agent::PopLoad => true,
            Agent::Locate { lookup: _, idx: _, version } => occupied(version),
            Agent::ReserveLen { .. } => true,
            _ => false,
        }
    }

    /// A memory between two operations, with nobody at work.
    pub open spec fn at_rest(state: State<V>) -> Self {
        World {
            state,
            agents: Seq::empty(),
            payloads: Seq::empty(),
            seen: Seq::empty(),
            ops: head_tag(state.free_head) as nat,
            guards: Seq::new(
                state.slots.len(),
                |i: int|
                    (state.slots[i].ref_count - one_if(occupied(state.slots[i].version))) as nat,
            ),
            log: state.stored(),
        }
    }

    /// Whether all agents are done.
    pub open spec fn quiescent(self) -> bool {
        forall|t: int| 0 <= t < self.agents.len() ==> (#[trigger] self.agents[t]).wants() is Stop
    }

    /// Whether agent `t` can go on: a full map cannot grow, and a count beyond its cap must not wrap.
    pub open spec fn can_step(self, t: int) -> bool {
        &&& 0 <= t < self.agents.len()
        &&& self.agents[t] is GrowLen ==> self.state.slots.len() < max_len()
        &&& self.agents[t] matches Agent::CloneAdd { idx } ==> self.state.slots[
            idx as int].ref_count < u32::MAX
    }

    /// Fewer changes of the free list than there are tags have happened since agent `t` read its
    /// head, if it is about to exchange it.
    pub open spec fn tag_is_fresh(self, t: int) -> bool {
        self.agents[t] is PopCas ==> self.ops - self.seen[t] < 0x1_0000_0000
    }

    /// What agent `t` read as the head of the free list is the head still, unless it changed.
    pub open spec fn head_current(self, t: int, head: u64) -> bool {
        &&& self.seen[t] <= self.ops
        &&& self.seen[t] == self.ops ==> head == self.state.free_head
    }

    /// What agent `t` knows of a head that is a slot.
    pub open spec fn head_known(self, t: int, head: u64) -> bool {
        &&& self.state.reachable(head_index(head))
        &&& head_tag(head) == self.seen[t] % 0x1_0000_0000
        &&& self.head_current(t, head)
    }

    /// What holds of agent `t`.
    pub open spec fn agent_ok(self, t: int) -> bool {
        match self.agents[t] {
            Agent::PopNext { head } => self.head_known(t, head),
            Agent::PopCas { head, next } => self.head_known(t, head) && (self.seen[t] == self.ops
                ==> self.state.slots[head_index(head) as int].next_free == next),
            Agent::ChunkLoad { idx } => idx < self.state.slots.len()
                && self.state.slots[idx as int] == zeroed_slot::<V>(),
            Agent::ChunkInstall { idx } => idx < self.state.slots.len()
                && self.state.slots[idx as int] == zeroed_slot::<V>(),
            Agent::VersionLoad { idx } => self.state.reachable(idx)
                && self.state.slots[idx as int].data is None,
            Agent::Claimed { idx, version } => self.owns(idx, version)
                && self.state.slots[idx as int].data is None,
            Agent::DataWrite { idx, version } => self.owns(idx, version)
                && self.state.slots[idx as int].data is None && self.payloads[t] is Some,
            Agent::RefStore { idx, version } => self.owns(idx, version)
                && self.state.slots[idx as int].data is Some,
            Agent::VersionStore { idx, version } => self.owns(idx, version),
            Agent::FreeLoad { idx, after: _ } => self.state.reachable(idx)
                && self.state.slots[idx as int].data is None,
            Agent::FreeLink { idx, head, after: _ } => self.state.reachable(idx)
                && self.state.slots[idx as int].data is None && self.head_current(t, head),
            Agent::FreeCas { idx, head, after: _ } => self.state.reachable(idx)
                && self.state.slots[idx as int].data is None && self.head_current(t, head)
                && self.state.slots[idx as int].next_free == head_index(head),
            Agent::Locate { lookup: _, idx: _, version } => occupied(version),
            Agent::Await { lookup: _, idx, version } => idx < self.state.slots.len()
                && occupied(version),
            Agent::RemoveLoad { idx, version } => self.state.reachable(idx) && occupied(version),
            Agent::RemoveCas { idx, version } => self.state.reachable(idx) && occupied(version),
            Agent::RefLoad { idx, version } => self.state.reachable(idx) && occupied(version),
            Agent::RefCas { idx, version, count } => self.state.reachable(idx) && occupied(version)
                && 0 < count <= MAX_REFCOUNT,
            Agent::RefCheck { idx, version } => self.state.reachable(idx) && occupied(version),
            Agent::ContainsLoad { idx, version } => self.state.reachable(idx) && occupied(version),
            Agent::ScanLoad { idx } => self.state.reachable(idx),
            Agent::ReserveScan { next, len, in_use, additional: _ } => next < len
                <= self.state.slots.len() && in_use <= next,
            Agent::ReserveCount { next, len, in_use, additional: _ } => next < len
                <= self.state.slots.len() && in_use <= next && self.state.reachable(next),
            Agent::ReserveLoad { chunk, last } => self.reserves(chunk, last),
            Agent::ReserveInstall { chunk, last } => self.reserves(chunk, last),
            Agent::CloneAdd { idx } => self.state.reachable(idx),
            Agent::RefDrop { idx, after } => self.state.reachable(idx) && after != After::Refuse && (
            after != After::Lookup ==> count(self.agents, Role::Publisher, idx as int) == 0),
            Agent::ValueDrop { idx, after } => self.state.reachable(idx) && after != After::Refuse
                && self.state.slots[idx as int].data is Some,
            _ => true,
        }
    }

    /// The chunks before the one that a reservation is at are there, and the rest is addressable.
    pub open spec fn reserves(self, chunk: usize, last: usize) -> bool {
        &&& chunk <= last < CHUNKS
        &&& chunk_start((last + 1) as nat) <= usize::MAX
        &&& forall|k: int| 0 <= k < chunk ==> #[trigger] self.state.present[k]
    }

    /// A chunk that is missing below a present one has slots in use, whose insertions will make it.
    #[verifier::opaque]
    pub open spec fn chunks_ok(self) -> bool {
        forall|j: int, k: int|
            0 <= j < k < CHUNKS && self.state.present[k] && !self.state.present[j] ==> chunk_start(
                j as nat,
            ) < self.state.slots.len()
    }

    /// A slot that an insertion is filling still has the version that was read.
    pub open spec fn owns(self, idx: u32, version: u32) -> bool {
        self.state.reachable(idx) && self.state.slots[idx as int].version == version && !occupied(
            version,
        )
    }

    /// What holds of slot `i`.
    pub open spec fn slot_ok(self, i: int) -> bool {
        let slot = self.state.slots[i];
        let free = self.state.free.contains(i as u32);
        // Every reference is the map's, a guard's or an agent's.
        &&& slot.ref_count == one_if(occupied(slot.version)) + self.guards[i] + count(
            self.agents,
            Role::Holder,
            i,
        )
        // The slot is owned by one agent, or is free, or is referenced, and only one of these.
        &&& count(self.agents, Role::Owner, i) + one_if(free) + one_if(slot.ref_count > 0)
            == 1
        // There is a value where anybody could read it, and none in a free slot.
        &&& slot.ref_count > 0 ==> slot.data is Some
        &&& free ==> slot.data is None
        // The chunk is there, unless the slot is being built.
        &&& count(self.agents, Role::Builder, i) == 0 ==> self.state.present[chunk_of(i) as int]
        // One insertion at a time publishes the slot.
        &&& count(self.agents, Role::Publisher, i) <= 1
        &&& count(self.agents, Role::Publisher, i) > 0 ==> !occupied(slot.version)
            && self.guards[i] == 0
        // A guard that is being cloned is held.
        &&& count(self.agents, Role::Cloner, i) > 0 ==> self.guards[i] > 0
        // What guards and the map refer to is what was published under the key.
        &&& occupied(slot.version) || self.guards[i] > 0 ==> self.published(i)
    }

    /// The value in slot `i` is the one that was published under its key.
    pub open spec fn published(self, i: int) -> bool {
        let key = KeyView { idx: i as u32, version: stored_version(self.state.slots[i].version) };
        self.log.contains_key(key) && self.state.slots[i].data == Some(self.log[key])
    }

    /// By how much the counter of elements and the elements that were counted differ.
    pub open spec fn num_gap(self) -> int {
        self.state.num_elems + count(self.agents, Role::Adder, 0) - occupied_count(
            self.state.slots,
        ) - count(self.agents, Role::Subtractor, 0)
    }

    /// The counter of elements is right, up to the agents that have not counted yet.
    #[verifier::opaque]
    pub open spec fn num_ok(self) -> bool {
        self.num_gap() % 0x1_0000_0000 == 0
    }

    /// What holds at every moment.
    pub open spec fn inv(self) -> bool {
        &&& self.payloads.len() == self.agents.len()
        &&& self.seen.len() == self.agents.len()
        &&& self.guards.len() == self.state.slots.len()
        &&& self.state.free_ok()
        &&& head_tag(self.state.free_head) == self.ops % 0x1_0000_0000
        &&& forall|t: int| 0 <= t < self.agents.len() ==> #[trigger] self.agent_ok(t)
        &&& forall|i: int| 0 <= i < self.state.slots.len() ==> #[trigger] self.slot_ok(i)
        &&& self.num_ok()
        &&& self.chunks_ok()
    }
}

} // verus!
