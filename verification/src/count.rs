//! Counting the agents that are at some stage with some slot.
#[allow(unused_imports)]
use crate::protocol::{After, Agent};
#[allow(unused_imports)]
use vstd::prelude::*;

verus! {

/// What an agent can be to a slot.
pub enum Role {
    /// It holds a reference that is counted in the slot.
    Holder,
    /// It alone may write the slot.
    Owner,
    /// It holds the reference of the map, and has not set the version yet.
    Publisher,
    /// It owns a fresh slot whose chunk may be missing.
    Builder,
    /// It clones a guard, which is held until it is done.
    Cloner,
    /// It set a version, and has not counted the element yet. The slot does not matter.
    Adder,
    /// It took a key out, and has not counted that yet. The slot does not matter.
    Subtractor,
}

/// Whether an agent has a role for slot `i`.
pub open spec fn has_role(role: Role, agent: Agent, i: int) -> bool {
    match role {
        Role::Holder => match agent {
            Agent::VersionStore { idx, version: _ } => idx == i,
            Agent::RefCheck { idx, version: _ } => idx == i,
            Agent::RefDrop { idx, after: _ } => idx == i,
            _ => false,
        },
        Role::Owner => match agent {
            Agent::ChunkLoad { idx } => idx == i,
            Agent::ChunkInstall { idx } => idx == i,
            Agent::VersionLoad { idx } => idx == i,
            Agent::Claimed { idx, version: _ } => idx == i,
            Agent::DataWrite { idx, version: _ } => idx == i,
            Agent::RefStore { idx, version: _ } => idx == i,
            Agent::ValueDrop { idx, after: _ } => idx == i,
            Agent::FreeLoad { idx, after: _ } => idx == i,
            Agent::FreeLink { idx, head: _, after: _ } => idx == i,
            Agent::FreeCas { idx, head: _, after: _ } => idx == i,
            _ => false,
        },
        Role::Publisher => match agent {
            Agent::VersionStore { idx, version: _ } => idx == i,
            _ => false,
        },
        Role::Builder => match agent {
            Agent::ChunkLoad { idx } => idx == i,
            Agent::ChunkInstall { idx } => idx == i,
            _ => false,
        },
        Role::Cloner => match agent {
            Agent::CloneAdd { idx } => idx == i,
            _ => false,
        },
        Role::Adder => agent is NumAdd,
        Role::Subtractor => match agent {
            Agent::RefDrop { idx: _, after } => after == After::Remove,
            Agent::ValueDrop { idx: _, after } => after == After::Remove,
            Agent::FreeLoad { idx: _, after } => after == After::Remove,
            Agent::FreeLink { idx: _, head: _, after } => after == After::Remove,
            Agent::FreeCas { idx: _, head: _, after } => after == After::Remove,
            Agent::NumSub => true,
            _ => false,
        },
    }
}

/// One for true, zero for false.
pub open spec fn one_if(b: bool) -> int {
    if b {
        1
    } else {
        0
    }
}

/// How many agents have a role for slot `i`.
pub open spec fn count(agents: Seq<Agent>, role: Role, i: int) -> int
    decreases agents.len(),
{
    if agents.len() == 0 {
        0
    } else {
        count(agents.drop_last(), role, i) + one_if(has_role(role, agents.last(), i))
    }
}

/// There are never fewer than no agents.
pub proof fn lemma_count_nonnegative(agents: Seq<Agent>, role: Role, i: int)
    ensures
        0 <= count(agents, role, i) <= agents.len(),
    decreases agents.len(),
{
    if agents.len() > 0 {
        lemma_count_nonnegative(agents.drop_last(), role, i);
    }
}

/// One agent changes.
pub proof fn lemma_count_update(agents: Seq<Agent>, t: int, agent: Agent, role: Role, i: int)
    requires
        0 <= t < agents.len(),
    ensures
        count(agents.update(t, agent), role, i) == count(agents, role, i) - one_if(
            has_role(role, agents[t], i),
        ) + one_if(has_role(role, agent, i)),
    decreases agents.len(),
{
    let changed = agents.update(t, agent);
    if t == agents.len() - 1 {
        assert(changed.drop_last() =~= agents.drop_last());
    } else {
        lemma_count_update(agents.drop_last(), t, agent, role, i);
        assert(changed.drop_last() =~= agents.drop_last().update(t, agent));
    }
}

/// One agent changes, for all roles and slots at once.
pub proof fn lemma_counts_update(agents: Seq<Agent>, t: int, agent: Agent)
    requires
        0 <= t < agents.len(),
    ensures
        forall|role: Role, i: int| #[trigger]
            count(agents.update(t, agent), role, i) == count(agents, role, i) - one_if(
                has_role(role, agents[t], i),
            ) + one_if(has_role(role, agent, i)),
{
    assert forall|role: Role, i: int| #[trigger]
        count(agents.update(t, agent), role, i) == count(agents, role, i) - one_if(
            has_role(role, agents[t], i),
        ) + one_if(has_role(role, agent, i)) by {
        lemma_count_update(agents, t, agent, role, i);
    }
}

/// One agent more, for all roles and slots at once.
pub proof fn lemma_counts_push(agents: Seq<Agent>, agent: Agent)
    ensures
        forall|role: Role, i: int| #[trigger]
            count(agents.push(agent), role, i) == count(agents, role, i) + one_if(
                has_role(role, agent, i),
            ),
{
    assert(agents.push(agent).drop_last() =~= agents);
}

/// An agent with a role is counted, and two are counted twice.
pub proof fn lemma_counted(agents: Seq<Agent>, t: int, role: Role, i: int)
    requires
        0 <= t < agents.len(),
        has_role(role, agents[t], i),
    ensures
        count(agents, role, i) >= 1,
        forall|u: int|
            0 <= u < agents.len() && u != t && has_role(role, #[trigger] agents[u], i) ==> count(
                agents,
                role,
                i,
            ) >= 2,
    decreases agents.len(),
{
    let rest = agents.drop_last();
    lemma_count_nonnegative(rest, role, i);
    if t < agents.len() - 1 {
        lemma_counted(rest, t, role, i);
        assert forall|u: int|
            0 <= u < agents.len() && u != t && has_role(
                role,
                #[trigger] agents[u],
                i,
            ) implies count(agents, role, i) >= 2 by {
            if u < rest.len() {
                assert(rest[u] == agents[u]);
            }
        }
    } else {
        assert forall|u: int|
            0 <= u < agents.len() && u != t && has_role(
                role,
                #[trigger] agents[u],
                i,
            ) implies count(agents, role, i) >= 2 by {
            assert(rest[u] == agents[u]);
            lemma_counted(rest, u, role, i);
        }
    }
}

/// An uncounted role is nobody's.
pub proof fn lemma_uncounted(agents: Seq<Agent>, role: Role, i: int)
    requires
        count(agents, role, i) <= 0,
    ensures
        forall|t: int| 0 <= t < agents.len() ==> !has_role(role, #[trigger] agents[t], i),
{
    assert forall|t: int| 0 <= t < agents.len() implies !has_role(role, #[trigger] agents[t], i) by {
        if has_role(role, agents[t], i) {
            lemma_counted(agents, t, role, i);
        }
    }
}

/// A role that nobody has is not counted.
pub proof fn lemma_count_none(agents: Seq<Agent>, role: Role, i: int)
    requires
        forall|t: int| 0 <= t < agents.len() ==> !has_role(role, #[trigger] agents[t], i),
    ensures
        count(agents, role, i) == 0,
    decreases agents.len(),
{
    if agents.len() > 0 {
        let rest = agents.drop_last();
        assert forall|t: int| 0 <= t < rest.len() implies !has_role(role, #[trigger] rest[t], i) by {
            assert(rest[t] == agents[t]);
        }
        lemma_count_none(rest, role, i);
    }
}

/// Publishers hold references, and builders own their slots.
pub proof fn lemma_count_subset(agents: Seq<Agent>, i: int)
    ensures
        count(agents, Role::Publisher, i) <= count(agents, Role::Holder, i),
        count(agents, Role::Builder, i) <= count(agents, Role::Owner, i),
    decreases agents.len(),
{
    if agents.len() > 0 {
        lemma_count_subset(agents.drop_last(), i);
    }
}

} // verus!
